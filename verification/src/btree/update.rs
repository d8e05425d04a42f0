//! Changes to a paged B-tree that split no node: deletions, commits and vacuums.
use crate::btree::leaves::{
    leaf_replaces, leaves, lemma_leaf_replaced, lemma_leaves, lemma_mapped, linked, node_mapped,
};
use crate::btree::node::{
    bumped, leaf_chains, leaf_keys, node_bytes, BTreeNode, LeafEntry, Node,
};
use crate::btree::paged::{
    is_torn, leaf_has_room, lemma_route, nodes, page_of, put_has_room, put_version, route, PagedBTree,
};
use crate::btree::tree::{
    first_leaf, grown_from, high, kid_after, leaf_lookup, lemma_leaf_entry, lemma_leaf_found,
    lemma_owned_is_node, lemma_upper_parts, lookup, low, owns, tree, upper, Nodes,
};
use crate::bytemap::{ascending, rank};
use crate::bytes::{bytes_equal, lex_lt};
use crate::mvcc::{with_delete, with_vacuum};
use crate::pager::{PageId, PageView, Pager};
use crate::snap::Snapshot;
use crate::table::{Corruption, TableError, TableResult};
use crate::txn::{commit_of, pending, saturated, vacuumed, visible_at, Version};
use crate::types::{LogSequenceNumber, TransactionId};
use vstd::prelude::*;

verus! {

/// The leaf with a tombstone of transaction `tx` in front of what it has of `key`.
pub open spec fn leaf_with_tombstone(n: Node, key: Seq<u8>, tx: TransactionId) -> Node {
    let at = rank(n->Leaf_keys, key);
    Node::Leaf {
        version: n->Leaf_version,
        keys: n->Leaf_keys,
        chains: n->chains.update(at, seq![pending(Seq::empty(), tx)] + n->chains[at]),
        next: n->next,
    }
}

/// The leaf without `key`.
pub open spec fn leaf_without(n: Node, key: Seq<u8>) -> Node {
    let at = rank(n->Leaf_keys, key);
    Node::Leaf {
        version: n->Leaf_version,
        keys: n->Leaf_keys.remove(at),
        chains: n->chains.remove(at),
        next: n->next,
    }
}

/// A change that goes through every leaf.
#[derive(Clone, Copy, Debug, PartialEq, Eq, Structural)]
pub enum LeafChange {
    /// Commits what a transaction left pending.
    Commit { tx: TransactionId, lsn: LogSequenceNumber },
    /// Drops the versions that no reader from a point on can see.
    Vacuum { min: LogSequenceNumber },
}

impl LeafChange {
    /// What becomes of the versions of a key.
    pub open spec fn apply(self, vs: Seq<Version>) -> Seq<Version> {
        match self {
            LeafChange::Commit { tx, lsn } => commit_of(vs, tx, lsn),
            LeafChange::Vacuum { min } => vacuumed(vs, min),
        }
    }

    /// What becomes of a leaf.
    pub open spec fn apply_leaf(self, n: Node) -> Node {
        Node::Leaf {
            version: bumped(n->Leaf_version),
            keys: n->Leaf_keys,
            chains: n->chains.map_values(|vs: Seq<Version>| self.apply(vs)),
            next: n->next,
        }
    }
}

/// The number of versions of several keys together.
pub open spec fn total_versions(chains: Seq<Seq<Version>>) -> int
    decreases chains.len(),
{
    if chains.len() == 0 {
        0
    } else {
        total_versions(chains.drop_last()) + chains.last().len()
    }
}

/// The number of versions that a change takes from the first `k` leaves.
pub open spec fn versions_taken(n: Nodes, ls: Seq<u64>, op: LeafChange, k: int) -> int
    decreases k,
{
    if k <= 0 {
        0
    } else {
        versions_taken(n, ls, op, k - 1) + total_versions(n[ls[k - 1]]->chains) - total_versions(
            op.apply_leaf(n[ls[k - 1]])->chains,
        )
    }
}

/// Every leaf fits its page after the change.
pub open spec fn change_fits(n: Nodes, ls: Seq<u64>, op: LeafChange, capacity: nat) -> bool {
    forall|i: int|
        0 <= i < ls.len() ==> node_bytes(op.apply_leaf(n[#[trigger] ls[i]])).len() <= capacity
}

proof fn lemma_change_len(op: LeafChange, vs: Seq<Version>)
    ensures
        op.apply(vs).len() <= vs.len(),
        vs.len() > 0 ==> op.apply(vs).len() > 0,
{
    match op {
        LeafChange::Commit { tx, lsn } => {},
        LeafChange::Vacuum { min } => {
            crate::txn::lemma_vacuumed_len(vs, min);
        },
    }
}

proof fn lemma_total_change(op: LeafChange, chains: Seq<Seq<Version>>)
    ensures
        0 <= total_versions(chains.map_values(|vs: Seq<Version>| op.apply(vs))) <= total_versions(
            chains,
        ),
    decreases chains.len(),
{
    let f = |vs: Seq<Version>| op.apply(vs);
    if chains.len() > 0 {
        lemma_total_change(op, chains.drop_last());
        assert(chains.map_values(f).drop_last() =~= chains.drop_last().map_values(f));
        lemma_change_len(op, chains.last());
    }
}

/// Puts the versions of every entry through a change. Returns how many versions went.
fn change_entries(entries: Vec<LeafEntry>, op: LeafChange) -> (r: (Vec<LeafEntry>, usize))
    ensures
        leaf_keys(r.0@) == leaf_keys(entries@),
        leaf_chains(r.0@) == leaf_chains(entries@).map_values(|vs: Seq<Version>| op.apply(vs)),
        r.1 as int == saturated(
            total_versions(leaf_chains(entries@)) - total_versions(leaf_chains(r.0@)),
        ),
{
    let ghost old_chains = leaf_chains(entries@);
    let ghost f = |vs: Seq<Version>| op.apply(vs);
    let mut entries = entries;
    let ghost before = entries@;
    let n: usize = entries.len();
    let mut i: usize = 0;
    let mut removed: usize = 0;
    proof {
        assert(old_chains.take(0) =~= Seq::empty());
        assert(leaf_chains(entries@).take(0) =~= Seq::empty());
    }
    while i < n
        invariant
            n == entries@.len() == before.len(),
            i <= n,
            old_chains == leaf_chains(before),
            f == (|vs: Seq<Version>| op.apply(vs)),
            forall|j: int| 0 <= j < n ==> (#[trigger] entries@[j]).key@ == before[j].key@,
            forall|j: int|
                0 <= j < i ==> (#[trigger] entries@[j]).chain@ == op.apply(before[j].chain@),
            forall|j: int| i <= j < n ==> #[trigger] entries@[j] == before[j],
            removed as int == saturated(
                total_versions(old_chains.take(i as int)) - total_versions(
                    leaf_chains(entries@).take(i as int),
                ),
            ),
            total_versions(leaf_chains(entries@).take(i as int)) <= total_versions(
                old_chains.take(i as int),
            ),
        decreases n - i,
    {
        let ghost prior = leaf_chains(entries@);
        let entry = &mut entries[i];
        let gone: usize = match op {
            LeafChange::Commit { tx, lsn } => {
                entry.chain.commit_of(tx, lsn);
                0
            },
            LeafChange::Vacuum { min } => entry.chain.vacuum(min),
        };
        removed = removed.saturating_add(gone);
        proof {
            let now = leaf_chains(entries@);
            assert(now.take(i as int) =~= prior.take(i as int));
            assert(now.take(i + 1).drop_last() =~= now.take(i as int));
            assert(old_chains.take(i + 1).drop_last() =~= old_chains.take(i as int));
            assert(now.take(i + 1).last() == op.apply(before[i as int].chain@));
            assert(old_chains.take(i + 1).last() == before[i as int].chain@);
            lemma_change_len(op, before[i as int].chain@);
        }
        i += 1;
    }
    proof {
        assert(old_chains.take(n as int) =~= old_chains);
        assert(leaf_chains(entries@).take(n as int) =~= leaf_chains(entries@));
        assert(leaf_keys(entries@) =~= leaf_keys(before));
        assert(leaf_chains(entries@) =~= old_chains.map_values(f));
    }
    (entries, removed)
}

/// What a tree holds after a change of one key alone.
proof fn lemma_chains_put(
    before: PagedBTree,
    pager: Pager,
    after: PagedBTree,
    pager2: Pager,
    key: Seq<u8>,
    vs: Seq<Version>,
)
    requires
        forall|k: Seq<u8>| #[trigger]
            after.find(&pager2, k) == (if k == key {
                Some(vs)
            } else {
                before.find(&pager, k)
            }),
    ensures
        after.chains(&pager2) == before.chains(&pager).insert(key, vs),
{
    assert(after.chains(&pager2) =~= before.chains(&pager).insert(key, vs));
}

impl PagedBTree {
    /// The leaf where `key` belongs.
    pub open spec fn leaf_of(&self, pager: &Pager, key: Seq<u8>) -> u64 {
        route(nodes(pager.pages()), self.root_page_id.0, self.height@, key).last()
    }

    /// Puts a tombstone in front of what the tree holds of `key`. Returns whether it holds
    /// anything.
    ///
    /// The key stays in its leaf; only what readers see of it changes. So nothing is merged or
    /// redistributed here.
    pub fn delete_internal(
        &mut self,
        pager: &mut Pager,
        key: &[u8],
        tx_id: TransactionId,
        _commit_lsn: LogSequenceNumber,
    ) -> (r: TableResult<bool>)
        requires
            old(self).wf(old(pager)),
        ensures
            final(self).wf(final(pager)),
            final(self).same_identity(old(self)),
            final(self).root_page_id == old(self).root_page_id,
            final(self).height@ == old(self).height@,
            final(pager).size == old(pager).size,
            final(pager).slots@.len() >= old(pager).slots@.len(),
            final(pager).root_btree_page == old(pager).root_btree_page,
            ({
                let n = nodes(old(pager).pages());
                let leaf = old(self).leaf_of(old(pager), key@);
                let known = old(self).find(old(pager), key@) is Some;
                let fits = node_bytes(leaf_with_tombstone(n[leaf], key@, tx_id)).len() <= old(
                    pager,
                ).capacity();
                if known && fits {
                    &&& r == Ok::<bool, TableError>(true)
                    &&& final(pager).pages() == old(pager).pages().insert(
                        leaf,
                        page_of(leaf_with_tombstone(n[leaf], key@, tx_id)),
                    )
                    &&& final(self).chains(final(pager)) == with_delete(
                        old(self).chains(old(pager)),
                        key@,
                        tx_id,
                    )
                    &&& forall|p: u64| #[trigger]
                        final(self).owns_page(final(pager), p) ==> old(self).owns_page(
                            old(pager),
                            p,
                        )
                    &&& final(self).row_count == (if old(self).row_count > 0 {
                        old(self).row_count - 1
                    } else {
                        0
                    })
                    &&& final(pager).btree_rows == final(self).row_count
                } else {
                    &&& *final(self) == *old(self)
                    &&& final(pager).pages() == old(pager).pages()
                    &&& final(pager).btree_rows == old(pager).btree_rows
                    &&& if known {
                        r is Err && r->Err_0 is Pager && r->Err_0->Pager_0 is PageOverflow
                    } else {
                        r == Ok::<bool, TableError>(false)
                    }
                }
            }),
            old(self).owns_page(old(pager), old(self).leaf_of(old(pager), key@)),
    {
        let ghost n = nodes(pager.pages());
        let ghost root = self.root_page_id.0;
        let ghost h = self.height@;
        proof {
            lemma_route(n, root, h, None, None, 0, key@);
            assert(owns(n, root, h, route(n, root, h, key@)[h as int]));
        }
        let (leaf_page_id, pos) = match self.search(pager, key) {
            Ok(t) => t,
            Err(e) => {
                return Err(e);
            },
        };
        let ghost leaf = leaf_page_id.0;
        let node = match self.read_node(pager, leaf_page_id) {
            Ok(x) => x,
            Err(e) => {
                return Err(e);
            },
        };
        match node {
            BTreeNode::Leaf { version, entries, next_leaf } => {
                let ghost keys = leaf_keys(entries@);
                let ghost chains = leaf_chains(entries@);
                if !(pos < entries.len() && bytes_equal(entries[pos].key.as_slice(), key)) {
                    return Ok(false);
                }
                let mut entries = entries;
                let old_entry = entries.remove(pos);
                let tombstone: Vec<u8> = Vec::new();
                assert(tombstone@ =~= Seq::<u8>::empty());
                let chain = old_entry.chain.prepend(tombstone, tx_id);
                entries.insert(pos, LeafEntry { key: old_entry.key, chain });
                let updated = BTreeNode::Leaf { version, entries, next_leaf };
                let ghost vs = seq![pending(Seq::<u8>::empty(), tx_id)] + chains[pos as int];
                proof {
                    assert(updated@ =~= leaf_with_tombstone(n[leaf], key@, tx_id)) by {
                        assert(leaf_keys(entries@) =~= keys);
                        assert(leaf_chains(entries@) =~= chains.update(pos as int, vs));
                    }
                }
                match self.write_node(pager, leaf_page_id, &updated) {
                    Ok(()) => {},
                    Err(e) => {
                        return Err(e);
                    },
                }
                let ghost n2 = nodes(pager.pages());
                let ghost table0 = *self;
                let ghost pager2 = *pager;
                proof {
                    let new_leaf = updated@;
                    assert(leaf_replaces(n[leaf], new_leaf)) by {
                        lemma_leaf_still_valid(n, root, h, key@);
                        assert forall|i: int| 0 <= i < new_leaf->chains.len() implies (
                        #[trigger] new_leaf->chains[i]).len() > 0 by {
                            if i != pos {
                                assert(chains[i].len() > 0);
                            }
                        }
                        assert forall|i: int| 0 <= i < keys.len() implies keys.contains(
                            #[trigger] keys[i],
                        ) by {}
                    }
                    lemma_leaf_replaced(n, n2, root, h, None, None, 0, key@, new_leaf);
                    assert forall|k: Seq<u8>| #[trigger] self.find(pager, k) == (if k == key@ {
                        Some(vs)
                    } else {
                        old(self).find(old(pager), k)
                    }) by {
                        lemma_route(n, root, h, None, None, 0, k);
                        if route(n, root, h, k).last() == leaf {
                            lemma_chain_updated(keys, chains, pos as int, vs, k);
                        }
                    }
                    lemma_chains_put(*old(self), *old(pager), *self, *pager, key@, vs);
                    lemma_owned_kept(n, n2, root, h, leaf);
                }
                self.row_count = if self.row_count > 0 {
                    self.row_count - 1
                } else {
                    0
                };
                pager.set_btree_row_count(self.row_count);
                proof {
                    assert forall|p: u64| #[trigger] self.owns_page(pager, p) implies old(
                        self,
                    ).owns_page(old(pager), p) by {
                        assert(owns(n2, root, h, p));
                    }
                    assert(self.chains(pager) =~= table0.chains(&pager2));
                    assert(self.chains(pager) =~= with_delete(
                        old(self).chains(old(pager)),
                        key@,
                        tx_id,
                    ));
                }
                Ok(true)
            },
            BTreeNode::Internal { .. } => Ok(false),
        }
    }

    /// Points an index key at a primary key, committed where `commit_lsn` is not zero.
    pub fn insert_entry(
        &mut self,
        pager: &mut Pager,
        index_key: &[u8],
        primary_key: &[u8],
        tx_id: TransactionId,
        commit_lsn: LogSequenceNumber,
    ) -> (r: TableResult<()>)
        requires
            old(self).wf(old(pager)),
            old(self).row_count < u64::MAX,
        ensures
            final(pager).wf(),
            final(pager).size == old(pager).size,
            final(self).same_identity(old(self)),
            ({
                let before = old(self).find(old(pager), index_key@);
                let vs = put_version(before, primary_key@, tx_id, commit_lsn);
                &&& r is Ok ==> {
                    &&& final(self).wf(final(pager))
                    &&& final(self).chains(final(pager)) == old(self).chains(old(pager)).insert(
                        index_key@,
                        vs,
                    )
                    &&& final(self).row_count == old(self).row_count + (if before is None {
                        1int
                    } else {
                        0int
                    })
                }
                &&& r matches Err(e) ==> e is Pager && e->Pager_0 is PageOverflow
                &&& r is Ok <==> put_has_room(
                    nodes(old(pager).pages()),
                    old(self).root_page_id.0,
                    old(self).height@,
                    old(pager).capacity(),
                    index_key@,
                    vs,
                )
                &&& !leaf_has_room(
                    nodes(old(pager).pages()),
                    old(self).root_page_id.0,
                    old(self).height@,
                    old(pager).capacity(),
                    index_key@,
                    vs,
                ) ==> {
                    &&& r is Err
                    &&& final(pager).pages() == old(pager).pages()
                    &&& *final(self) == *old(self)
                }
                &&& r is Err && leaf_has_room(
                    nodes(old(pager).pages()),
                    old(self).root_page_id.0,
                    old(self).height@,
                    old(pager).capacity(),
                    index_key@,
                    vs,
                ) ==> {
                    &&& *final(self) == *old(self)
                    &&& is_torn(
                        nodes(old(pager).pages()),
                        nodes(final(pager).pages()),
                        old(self).root_page_id.0,
                        old(self).height@,
                        old(pager).capacity(),
                        index_key@,
                        vs,
                    )
                }
            }),
    {
        self.insert_internal(
            pager,
            crate::bytes::copy_bytes(index_key),
            crate::bytes::copy_bytes(primary_key),
            tx_id,
            commit_lsn,
        )
    }

    /// Removes an index key if its newest committed version points at the given primary key.
    pub fn delete_entry(
        &mut self,
        pager: &mut Pager,
        index_key: &[u8],
        primary_key: &[u8],
        _tx_id: TransactionId,
        _commit_lsn: LogSequenceNumber,
    ) -> (r: TableResult<()>)
        requires
            old(self).wf(old(pager)),
        ensures
            final(self).wf(final(pager)),
            *final(self) == *old(self),
            final(pager).same_meta(old(pager)),
            ({
                let n = nodes(old(pager).pages());
                let leaf = old(self).leaf_of(old(pager), index_key@);
                let points_there = match old(self).find(old(pager), index_key@) {
                    Some(vs) => visible_at(vs, LogSequenceNumber(u64::MAX)) == Some(primary_key@),
                    None => false,
                };
                let fits = node_bytes(leaf_without(n[leaf], index_key@)).len() <= old(
                    pager,
                ).capacity();
                if points_there && fits {
                    &&& r is Ok
                    &&& final(pager).pages() == old(pager).pages().insert(
                        leaf,
                        page_of(leaf_without(n[leaf], index_key@)),
                    )
                    &&& final(self).chains(final(pager)) == old(self).chains(old(pager)).remove(
                        index_key@,
                    )
                } else {
                    &&& final(pager).pages() == old(pager).pages()
                    &&& if points_there {
                        r is Err && r->Err_0 is Pager && r->Err_0->Pager_0 is PageOverflow
                    } else {
                        r is Ok
                    }
                }
            }),
    {
        let ghost n = nodes(pager.pages());
        let ghost root = self.root_page_id.0;
        let ghost h = self.height@;
        proof {
            lemma_route(n, root, h, None, None, 0, index_key@);
            assert(owns(n, root, h, route(n, root, h, index_key@)[h as int]));
        }
        let (leaf_page_id, pos) = match self.search(pager, index_key) {
            Ok(t) => t,
            Err(e) => {
                return Err(e);
            },
        };
        let ghost leaf = leaf_page_id.0;
        let node = match self.read_node(pager, leaf_page_id) {
            Ok(x) => x,
            Err(e) => {
                return Err(e);
            },
        };
        match node {
            BTreeNode::Leaf { version, entries, next_leaf } => {
                let ghost keys = leaf_keys(entries@);
                let ghost chains = leaf_chains(entries@);
                if !(pos < entries.len() && bytes_equal(entries[pos].key.as_slice(), index_key)) {
                    return Ok(());
                }
                let snapshot = Snapshot::at(LogSequenceNumber(u64::MAX));
                let points_there: bool = match entries[pos].chain.find_visible_version(&snapshot) {
                    Some(stored) => bytes_equal(stored, primary_key),
                    None => false,
                };
                if !points_there {
                    return Ok(());
                }
                let mut entries = entries;
                let _ = entries.remove(pos);
                let updated = BTreeNode::Leaf { version, entries, next_leaf };
                proof {
                    assert(updated@ =~= leaf_without(n[leaf], index_key@)) by {
                        assert(leaf_keys(entries@) =~= keys.remove(pos as int));
                        assert(leaf_chains(entries@) =~= chains.remove(pos as int));
                    }
                }
                match self.write_node(pager, leaf_page_id, &updated) {
                    Ok(()) => {},
                    Err(e) => {
                        return Err(e);
                    },
                }
                proof {
                    let n2 = nodes(pager.pages());
                    let new_leaf = updated@;
                    lemma_leaf_still_valid(n, root, h, index_key@);
                    lemma_leaf_removed(n[leaf], new_leaf, pos as int);
                    lemma_leaf_replaced(n, n2, root, h, None, None, 0, index_key@, new_leaf);
                    assert forall|k: Seq<u8>| #[trigger] self.find(pager, k) == (if k
                        == index_key@ {
                        None
                    } else {
                        old(self).find(old(pager), k)
                    }) by {
                        lemma_route(n, root, h, None, None, 0, k);
                        if route(n, root, h, k).last() == leaf {
                            lemma_entry_removed(keys, chains, pos as int, k);
                        }
                    }
                    assert(self.chains(pager) =~= old(self).chains(old(pager)).remove(index_key@));
                }
                Ok(())
            },
            BTreeNode::Internal { .. } => Ok(()),
        }
    }

    /// The first leaf of the tree.
    pub fn find_first_leaf(&self, pager: &Pager) -> (r: TableResult<PageId>)
        requires
            self.wf(pager),
        ensures
            r is Ok,
            r->Ok_0.0 == first_leaf(nodes(pager.pages()), self.root_page_id.0, self.height@),
    {
        self.first_leaf_from(
            pager,
            self.root_page_id,
            Ghost(self.height@),
            Ghost(None),
            Ghost(None),
            Ghost(0),
        )
    }

    fn first_leaf_from(
        &self,
        pager: &Pager,
        current: PageId,
        Ghost(h): Ghost<nat>,
        Ghost(lo): Ghost<Option<Seq<u8>>>,
        Ghost(hi): Ghost<Option<Seq<u8>>>,
        Ghost(after): Ghost<u64>,
    ) -> (r: TableResult<PageId>)
        requires
            pager.wf(),
            tree(nodes(pager.pages()), current.0, h, lo, hi, after),
        ensures
            r is Ok,
            r->Ok_0.0 == first_leaf(nodes(pager.pages()), current.0, h),
        decreases h,
    {
        let ghost n = nodes(pager.pages());
        match self.read_node(pager, current) {
            Ok(BTreeNode::Internal { version: _, entries, rightmost_child }) => {
                let kid = if entries.len() > 0 {
                    entries[0].child_page_id
                } else {
                    rightmost_child
                };
                let ghost keys = n[current.0]->Internal_keys;
                let ghost kids = n[current.0]->kids;
                assert(kids[0] == kid.0);
                self.first_leaf_from(
                    pager,
                    kid,
                    Ghost((h - 1) as nat),
                    Ghost(low(keys, lo, 0)),
                    Ghost(high(keys, hi, 0)),
                    Ghost(kid_after(n, kids, (h - 1) as nat, after, 0)),
                )
            },
            Ok(BTreeNode::Leaf { .. }) => Ok(current),
            Err(e) => Err(e),
        }
    }

    /// Puts the versions of every key through a change, leaf by leaf. Returns how many versions
    /// went.
    #[verifier::rlimit(40)]
    pub fn change_leaves(&self, pager: &mut Pager, op: LeafChange) -> (r: TableResult<usize>)
        requires
            self.wf(old(pager)),
        ensures
            final(pager).wf(),
            final(pager).same_meta(old(pager)),
            forall|p: u64| #[trigger]
                old(pager).pages().contains_key(p) ==> final(pager).pages().contains_key(p) && (
                !self.owns_page(old(pager), p) ==> final(pager).pages()[p] == old(pager).pages()[p]),
            ({
                let n = nodes(old(pager).pages());
                let ls = leaves(n, self.root_page_id.0, self.height@);
                &&& r is Ok <==> change_fits(n, ls, op, old(pager).capacity())
                &&& r matches Ok(removed) ==> {
                    &&& self.wf(final(pager))
                    &&& self.chains(final(pager)) == self.chains(old(pager)).map_values(
                        |vs: Seq<Version>| op.apply(vs),
                    )
                    &&& forall|p: u64| #[trigger]
                        self.owns_page(final(pager), p) == self.owns_page(old(pager), p)
                    &&& removed as int == saturated(versions_taken(n, ls, op, ls.len() as int))
                }
                &&& r matches Err(e) ==> e is Pager && e->Pager_0 is PageOverflow
            }),
    {
        let ghost pages = pager.pages();
        let ghost n = nodes(pages);
        let ghost root = self.root_page_id.0;
        let ghost h = self.height@;
        let ghost ls = leaves(n, root, h);
        proof {
            lemma_leaves(n, root, h, None, None, 0);
        }
        let mut current = match self.find_first_leaf(pager) {
            Ok(id) => id,
            Err(e) => {
                return Err(e);
            },
        };
        let mut total: usize = 0;
        let ghost mut i: int = 0;
        proof {
            reveal(changed_upto);
            reveal(pages_follow);
        }
        loop
            invariant
                pager.wf(),
                pager.same_meta(old(pager)),
                pages == old(pager).pages(),
                n == nodes(pages),
                root == self.root_page_id.0,
                h == self.height@,
                ls == leaves(n, root, h),
                self.wf(old(pager)),
                linked(n, ls, 0),
                forall|j: int| 0 <= j < ls.len() ==> owns(n, root, h, #[trigger] ls[j]),
                0 <= i < ls.len(),
                current.0 == ls[i],
                forall|j: int|
                    0 <= j < i ==> node_bytes(op.apply_leaf(n[#[trigger] ls[j]])).len() <= old(
                        pager,
                    ).capacity(),
                changed_upto(n, nodes(pager.pages()), ls, op, i),
                pages_follow(pages, pager.pages(), n, root, h),
                total as int == saturated(versions_taken(n, ls, op, i)),
                versions_taken(n, ls, op, i) >= 0,
            decreases ls.len() - i,
        {
            let ghost nc = nodes(pager.pages());
            let ghost prior = pager.pages();
            proof {
                lemma_next_unchanged(n, nc, ls, op, i);
            }
            let node = match self.read_node(pager, current) {
                Ok(x) => x,
                Err(e) => {
                    return Err(e);
                },
            };
            match node {
                BTreeNode::Leaf { version, entries, next_leaf } => {
                    let (changed, removed) = change_entries(entries, op);
                    let updated = BTreeNode::Leaf {
                        version: version.increment(),
                        entries: changed,
                        next_leaf,
                    };
                    proof {
                        assert(updated@ =~= op.apply_leaf(n[ls[i]]));
                        lemma_total_change(op, n[ls[i]]->chains);
                    }
                    match self.write_node(pager, current, &updated) {
                        Ok(()) => {},
                        Err(e) => {
                            proof {
                                reveal(pages_follow);
                                assert(!(node_bytes(op.apply_leaf(n[ls[i]])).len()
                                    <= pager.capacity()));
                            }
                            return Err(e);
                        },
                    }
                    total = total.saturating_add(removed);
                    proof {
                        assert(owns(n, root, h, ls[i]));
                        lemma_pages_follow(
                            pages,
                            prior,
                            n,
                            root,
                            h,
                            ls[i],
                            page_of(updated@),
                        );
                        lemma_changed_step(n, nc, ls, op, i);
                    }
                    if next_leaf.0 == 0 {
                        proof {
                            if i + 1 < ls.len() {
                                assert(ls[i + 1] != 0);
                            }
                            assert(i + 1 == ls.len());
                            reveal(pages_follow);
                            lemma_all_changed(pages, pager.pages(), root, h, op);
                            assert(change_fits(n, ls, op, pager.capacity()));
                            assert(self.chains(pager) =~= self.chains(old(pager)).map_values(
                                |vs: Seq<Version>| op.apply(vs),
                            ));
                        }
                        return Ok(total);
                    }
                    proof {
                        i = i + 1;
                    }
                    current = next_leaf;
                },
                BTreeNode::Internal { .. } => {
                    return Err(TableError::Corruption(Corruption::EmptyInternalNode(current)));
                },
            }
        }
    }

    /// Commits every version that a transaction left pending.
    pub fn commit_versions_for_tx(
        &self,
        pager: &mut Pager,
        tx_id: TransactionId,
        commit_lsn: LogSequenceNumber,
    ) -> (r: TableResult<()>)
        requires
            self.wf(old(pager)),
        ensures
            final(pager).wf(),
            final(pager).same_meta(old(pager)),
            forall|p: u64| #[trigger]
                old(pager).pages().contains_key(p) ==> final(pager).pages().contains_key(p) && (
                !self.owns_page(old(pager), p) ==> final(pager).pages()[p] == old(pager).pages()[p]),
            ({
                let n = nodes(old(pager).pages());
                let ls = leaves(n, self.root_page_id.0, self.height@);
                let op = LeafChange::Commit { tx: tx_id, lsn: commit_lsn };
                &&& r is Ok <==> change_fits(n, ls, op, old(pager).capacity())
                &&& r is Ok ==> {
                    &&& self.wf(final(pager))
                    &&& self.chains(final(pager)) == self.chains(old(pager)).map_values(
                        |vs: Seq<Version>| commit_of(vs, tx_id, commit_lsn),
                    )
                    &&& forall|p: u64| #[trigger]
                        self.owns_page(final(pager), p) == self.owns_page(old(pager), p)
                }
                &&& r matches Err(e) ==> e is Pager && e->Pager_0 is PageOverflow
            }),
    {
        match self.change_leaves(pager, LeafChange::Commit { tx: tx_id, lsn: commit_lsn }) {
            Ok(_) => {
                proof {
                    assert(self.chains(pager) =~= self.chains(old(pager)).map_values(
                        |vs: Seq<Version>| commit_of(vs, tx_id, commit_lsn),
                    ));
                }
                Ok(())
            },
            Err(e) => Err(e),
        }
    }

    /// Drops the versions that no reader at `min_visible_lsn` or later can see, but for one base
    /// version per key. Returns how many went.
    pub fn vacuum(&self, pager: &mut Pager, min_visible_lsn: LogSequenceNumber) -> (r: TableResult<
        usize,
    >)
        requires
            self.wf(old(pager)),
        ensures
            final(pager).wf(),
            final(pager).same_meta(old(pager)),
            forall|p: u64| #[trigger]
                old(pager).pages().contains_key(p) ==> final(pager).pages().contains_key(p) && (
                !self.owns_page(old(pager), p) ==> final(pager).pages()[p] == old(pager).pages()[p]),
            ({
                let n = nodes(old(pager).pages());
                let ls = leaves(n, self.root_page_id.0, self.height@);
                let op = LeafChange::Vacuum { min: min_visible_lsn };
                &&& r is Ok <==> change_fits(n, ls, op, old(pager).capacity())
                &&& r matches Ok(removed) ==> {
                    &&& self.wf(final(pager))
                    &&& self.chains(final(pager)) == with_vacuum(
                        self.chains(old(pager)),
                        min_visible_lsn,
                    )
                    &&& removed as int == saturated(versions_taken(n, ls, op, ls.len() as int))
                }
                &&& r matches Err(e) ==> e is Pager && e->Pager_0 is PageOverflow
            }),
    {
        let r = self.change_leaves(pager, LeafChange::Vacuum { min: min_visible_lsn });
        proof {
            if r is Ok {
                assert(self.chains(pager) =~= with_vacuum(
                    self.chains(old(pager)),
                    min_visible_lsn,
                ));
            }
        }
        r
    }
}

/// The first `k` leaves went through the change, and all other nodes are as they were.
#[verifier::opaque]
spec fn changed_upto(n: Nodes, nc: Nodes, ls: Seq<u64>, op: LeafChange, k: int) -> bool {
    &&& forall|j: int|
        0 <= j < k ==> nc.contains_key(#[trigger] ls[j]) && nc[ls[j]] == op.apply_leaf(n[ls[j]])
    &&& forall|p: u64| #[trigger]
        n.contains_key(p) && !ls.take(k).contains(p) ==> nc.contains_key(p) && nc[p] == n[p]
}

proof fn lemma_next_unchanged(n: Nodes, nc: Nodes, ls: Seq<u64>, op: LeafChange, k: int)
    requires
        changed_upto(n, nc, ls, op, k),
        linked(n, ls, 0),
        0 <= k < ls.len(),
    ensures
        nc.contains_key(ls[k]),
        nc[ls[k]] == n[ls[k]],
{
    reveal(changed_upto);
    assert(n.contains_key(ls[k]));
    if ls.take(k).contains(ls[k]) {
        let j = ls.take(k).index_of(ls[k]);
        assert(ls[j] == ls[k]);
    }
}

proof fn lemma_changed_step(n: Nodes, nc: Nodes, ls: Seq<u64>, op: LeafChange, k: int)
    requires
        changed_upto(n, nc, ls, op, k),
        linked(n, ls, 0),
        0 <= k < ls.len(),
    ensures
        changed_upto(n, nc.insert(ls[k], op.apply_leaf(n[ls[k]])), ls, op, k + 1),
{
    reveal(changed_upto);
    let nc2 = nc.insert(ls[k], op.apply_leaf(n[ls[k]]));
    assert forall|j: int| 0 <= j < k + 1 implies nc2.contains_key(#[trigger] ls[j]) && nc2[ls[j]]
        == op.apply_leaf(n[ls[j]]) by {
        if j < k {
            assert(ls[j] != ls[k]);
        }
    }
    assert forall|p: u64| #[trigger]
        n.contains_key(p) && !ls.take(k + 1).contains(p) implies nc2.contains_key(p) && nc2[p]
        == n[p] by {
        if ls.take(k).contains(p) {
            let j = ls.take(k).index_of(p);
            assert(ls.take(k + 1)[j] == p);
        }
        if p == ls[k] {
            assert(ls.take(k + 1)[k] == p);
        }
    }
}

proof fn lemma_pages_follow(
    pages: Map<u64, PageView>,
    pages2: Map<u64, PageView>,
    n: Nodes,
    root: u64,
    h: nat,
    p: u64,
    page: PageView,
)
    requires
        pages_follow(pages, pages2, n, root, h),
        owns(n, root, h, p),
    ensures
        pages_follow(pages, pages2.insert(p, page), n, root, h),
{
    reveal(pages_follow);
}

/// The pages outside a tree are as they were, and no page is gone.
#[verifier::opaque]
spec fn pages_follow(
    pages: Map<u64, PageView>,
    pages2: Map<u64, PageView>,
    n: Nodes,
    root: u64,
    h: nat,
) -> bool {
    forall|p: u64| #[trigger]
        pages.contains_key(p) ==> pages2.contains_key(p) && (!owns(n, root, h, p) ==> pages2[p]
            == pages[p])
}

/// The tree after every leaf went through a change.
proof fn lemma_all_changed(
    pages: Map<u64, PageView>,
    pages2: Map<u64, PageView>,
    root: u64,
    h: nat,
    op: LeafChange,
)
    requires
        tree(nodes(pages), root, h, None, None, 0),
        changed_upto(
            nodes(pages),
            nodes(pages2),
            leaves(nodes(pages), root, h),
            op,
            leaves(nodes(pages), root, h).len() as int,
        ),
    ensures
        tree(nodes(pages2), root, h, None, None, 0),
        forall|p: u64| #[trigger]
            owns(nodes(pages2), root, h, p) == owns(nodes(pages), root, h, p),
        forall|k: Seq<u8>| #[trigger]
            lookup(nodes(pages2), root, h, k) == (match lookup(nodes(pages), root, h, k) {
                Some(vs) => Some(op.apply(vs)),
                None => None,
            }),
{
    reveal(changed_upto);
    let n = nodes(pages);
    let n2 = nodes(pages2);
    let ls = leaves(n, root, h);
    let f = |vs: Seq<Version>| op.apply(vs);
    assert(ls.take(ls.len() as int) =~= ls);
    lemma_leaves(n, root, h, None, None, 0);
    assert forall|vs: Seq<Version>| vs.len() > 0 implies (#[trigger] f(vs)).len() > 0 by {
        lemma_change_len(op, vs);
    }
    assert forall|p: u64| #[trigger] owns(n, root, h, p) implies n2.contains_key(p) && node_mapped(
        n[p],
        n2[p],
        f,
    ) by {
        lemma_owned_is_node(n, root, h, None, None, 0, p);
        if n[p] is Leaf {
            let j = ls.index_of(p);
            assert(ls[j] == p);
        } else {
            if ls.contains(p) {
                let j = ls.index_of(p);
                assert(n[ls[j]] is Leaf);
            }
        }
    }
    lemma_mapped(n, n2, root, h, None, None, 0, f);
    assert forall|k: Seq<u8>| #[trigger] lookup(n2, root, h, k) == (match lookup(n, root, h, k) {
        Some(vs) => Some(op.apply(vs)),
        None => None,
    }) by {
        assert(lookup(n2, root, h, k) == (match lookup(n, root, h, k) {
            Some(vs) => Some(f(vs)),
            None => None,
        }));
    }
}

/// The leaf of a key lists it in order, each key with versions.
proof fn lemma_leaf_still_valid(n: Nodes, root: u64, h: nat, key: Seq<u8>)
    requires
        tree(n, root, h, None, None, 0),
    ensures
        ({
            let leaf = n[route(n, root, h, key).last()];
            &&& leaf is Leaf
            &&& ascending(leaf->Leaf_keys)
            &&& leaf->Leaf_keys.len() == leaf->chains.len()
            &&& forall|i: int| 0 <= i < leaf->chains.len() ==> (#[trigger] leaf->chains[i]).len() > 0
        }),
{
    lemma_route(n, root, h, None, None, 0, key);
    lemma_leaf_chains(n, root, h, None, None, 0, key);
}

proof fn lemma_leaf_chains(
    n: Nodes,
    id: u64,
    h: nat,
    lo: Option<Seq<u8>>,
    hi: Option<Seq<u8>>,
    after: u64,
    key: Seq<u8>,
)
    requires
        tree(n, id, h, lo, hi, after),
    ensures
        forall|i: int|
            0 <= i < n[route(n, id, h, key).last()]->chains.len() ==> (#[trigger] n[route(
                n,
                id,
                h,
                key,
            ).last()]->chains[i]).len() > 0,
    decreases h,
{
    if h > 0 {
        let keys = n[id]->Internal_keys;
        let kids = n[id]->kids;
        let g = (h - 1) as nat;
        lemma_upper_parts(keys, key);
        let u = upper(keys, key);
        lemma_leaf_chains(
            n,
            kids[u],
            g,
            low(keys, lo, u),
            high(keys, hi, u),
            kid_after(n, kids, g, after, u),
            key,
        );
        lemma_route(
            n,
            kids[u],
            g,
            low(keys, lo, u),
            high(keys, hi, u),
            kid_after(n, kids, g, after, u),
            key,
        );
        assert(route(n, id, h, key).last() == route(n, kids[u], g, key).last());
    }
}

/// Replacing a leaf's node adds no page to a tree.
proof fn lemma_owned_kept(n: Nodes, n2: Nodes, root: u64, h: nat, leaf: u64)
    requires
        grown_from(n, root, n2, root, h),
        forall|p: u64| #[trigger] n2.contains_key(p) <==> n.contains_key(p),
        tree(n2, root, h, None, None, 0),
    ensures
        forall|p: u64| #[trigger] owns(n2, root, h, p) ==> owns(n, root, h, p),
{
    assert forall|p: u64| #[trigger] owns(n2, root, h, p) implies owns(n, root, h, p) by {
        lemma_owned_is_node(n2, root, h, None, None, 0, p);
    }
}

proof fn lemma_chain_updated(
    keys: Seq<Seq<u8>>,
    chains: Seq<Seq<Version>>,
    at: int,
    vs: Seq<Version>,
    k: Seq<u8>,
)
    requires
        ascending(keys),
        keys.len() == chains.len(),
        0 <= at < keys.len(),
    ensures
        leaf_lookup(keys, chains.update(at, vs), k) == (if k == keys[at] {
            Some(vs)
        } else {
            leaf_lookup(keys, chains, k)
        }),
{
    if k == keys[at] {
        lemma_leaf_entry(keys, chains.update(at, vs), at);
    } else {
        crate::bytemap::lemma_rank_parts(keys, k);
    }
}

proof fn lemma_leaf_removed(old: Node, new: Node, at: int)
    requires
        old is Leaf,
        new is Leaf,
        ascending(old->Leaf_keys),
        old->Leaf_keys.len() == old->chains.len(),
        forall|i: int| 0 <= i < old->chains.len() ==> (#[trigger] old->chains[i]).len() > 0,
        0 <= at < old->Leaf_keys.len(),
        new->Leaf_keys == old->Leaf_keys.remove(at),
        new->chains == old->chains.remove(at),
        new->next == old->next,
    ensures
        leaf_replaces(old, new),
{
    let keys = old->Leaf_keys;
    let keys2 = new->Leaf_keys;
    assert forall|i: int, j: int| 0 <= i < j < keys2.len() implies lex_lt(
        #[trigger] keys2[i],
        #[trigger] keys2[j],
    ) by {
        let a = if i < at { i } else { i + 1 };
        let b = if j < at { j } else { j + 1 };
        assert(lex_lt(keys[a], keys[b]));
    }
    assert forall|i: int| 0 <= i < keys2.len() implies keys.contains(#[trigger] keys2[i]) by {
        let a = if i < at { i } else { i + 1 };
        assert(keys[a] == keys2[i]);
    }
    assert forall|i: int| 0 <= i < new->chains.len() implies (#[trigger] new->chains[i]).len()
        > 0 by {
        let a = if i < at { i } else { i + 1 };
        assert(old->chains[a].len() > 0);
    }
}

proof fn lemma_entry_removed(
    keys: Seq<Seq<u8>>,
    chains: Seq<Seq<Version>>,
    at: int,
    k: Seq<u8>,
)
    requires
        ascending(keys),
        keys.len() == chains.len(),
        0 <= at < keys.len(),
    ensures
        leaf_lookup(keys.remove(at), chains.remove(at), k) == (if k == keys[at] {
            None
        } else {
            leaf_lookup(keys, chains, k)
        }),
{
    let keys2 = keys.remove(at);
    let chains2 = chains.remove(at);
    assert(ascending(keys2)) by {
        assert forall|i: int, j: int| 0 <= i < j < keys2.len() implies lex_lt(
            #[trigger] keys2[i],
            #[trigger] keys2[j],
        ) by {
            let a = if i < at { i } else { i + 1 };
            let b = if j < at { j } else { j + 1 };
            assert(lex_lt(keys[a], keys[b]));
        }
    }
    if leaf_lookup(keys2, chains2, k) is Some {
        let j = lemma_leaf_found(keys2, chains2, k);
        let i = if j < at { j } else { j + 1 };
        lemma_leaf_entry(keys, chains, i);
        if k == keys[at] {
            lemma_leaf_entry(keys, chains, at);
        }
    } else if leaf_lookup(keys, chains, k) is Some && k != keys[at] {
        let i = lemma_leaf_found(keys, chains, k);
        let j = if i < at { i } else { i - 1 };
        assert(keys2[j] == k);
        lemma_leaf_entry(keys2, chains2, j);
    }
}

} // verus!
