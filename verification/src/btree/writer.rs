//! Writing to a paged B-tree: pending changes and flushes.
use crate::btree::cursor::{
    is_entry, leftmost, seek_target, shown, walk, PagedBTreeCursor, ScanStop, SeekTarget,
};
use crate::btree::leaves::leaves;
use crate::btree::node::node_bytes;
use crate::btree::paged::{
    index_in, is_torn, leaf_has_room, nodes, put_has_room, put_version, resolve, resolved_read,
    route, PagedBTree,
};
use crate::btree::streaming::{
    all_kept, joined, law_reference_resolves, lemma_tree_survives, pages_added, reference_to,
    write_stream,
};
use crate::btree::tree::Nodes;
use crate::btree::update::{change_fits, leaf_with_tombstone, LeafChange};
use crate::bytes::{append_bytes, copy_bytes};
use crate::mvcc::{
    chain_of, law_flushed_changes_are_invisible, raw_read, with_change, with_changes, with_put,
    Change, Chains,
};
use crate::overflow::{
    chain_data, free_overflow_chain, freed_chain, parse_overflow, ValueRef, OVERFLOW_HEADER_SIZE,
};
use crate::pager::{PageId, PageView, Pager, PagerError};
use crate::stream::{read_to_end, ValueStream, CHUNK_SIZE};
use crate::table::{BatchReport, Mutation, TableError, TableResult, WriteBatch};
use crate::txn::{commit_of, pending, Version};
use crate::types::{value_view, Bound, LogSequenceNumber, ScanBounds, TransactionId, ValueBuf};
use vstd::prelude::*;

verus! {

/// The largest value that is kept in the tree itself, unless it is put as a whole.
pub const MAX_INLINE: usize = 4096;

/// A change that waits to be flushed.
#[derive(Debug)]
pub enum PendingChange {
    /// A value that goes into the tree.
    Inline { key: Vec<u8>, value: Vec<u8> },
    /// A reference to a value that stands in overflow pages already.
    External { key: Vec<u8>, value_ref: ValueRef },
    /// A deletion.
    Delete { key: Vec<u8> },
}

impl PendingChange {
    /// The change as the contracts speak of it.
    pub open spec fn change(&self) -> Change {
        match self {
            PendingChange::Inline { key, value } => (key@, Some(value@)),
            PendingChange::External { key, value_ref } => (key@, Some(value_ref.bytes())),
            PendingChange::Delete { key } => (key@, None),
        }
    }
}

/// The changes that a list of pending changes stands for.
pub open spec fn changes_of(v: Seq<PendingChange>) -> Seq<Change> {
    Seq::new(v.len(), |i: int| v[i].change())
}

/// The bytes are a reference to a value outside the tree.
pub open spec fn is_reference(value: Seq<u8>) -> bool {
    match ValueRef::parse(value) {
        Some(ValueRef::Inline) => false,
        Some(_) => true,
        None => false,
    }
}

/// The pages after what a reference names was released, and what came of it.
pub open spec fn release_result(pages: Map<u64, PageView>, fuel: nat, r: ValueRef) -> Result<
    Map<u64, PageView>,
    TableError,
> {
    match r {
        ValueRef::Inline => Ok(pages),
        ValueRef::SinglePage { page_id, offset, length } => if pages.contains_key(page_id as u64) {
            Ok(pages.remove(page_id as u64))
        } else {
            Err(TableError::Pager(PagerError::PageNotFound(PageId(page_id as u64))))
        },
        ValueRef::OverflowChain { first_page_id, total_length, page_count } => freed_chain(
            pages,
            first_page_id as u64,
            fuel,
        ),
    }
}

/// The pages of a chain of overflow pages exist, can be read and are no pages of a tree.
pub open spec fn chain_outside(
    pages: Map<u64, PageView>,
    table: PagedBTree,
    pager: Pager,
    id: u64,
    fuel: nat,
) -> bool
    decreases fuel,
{
    id == 0 || (fuel > 0 && pages.contains_key(id) && !table.owns_page(&pager, id)
        && parse_overflow(pages[id].data) is Some && chain_outside(
        pages,
        table,
        pager,
        parse_overflow(pages[id].data)->Some_0.0,
        (fuel - 1) as nat,
    ))
}

/// What a value refers to, if it is a reference, is outside the tree.
pub open spec fn is_outside(table: PagedBTree, pager: Pager, value: Seq<u8>) -> bool {
    match ValueRef::parse(value) {
        Some(ValueRef::SinglePage { page_id, offset, length }) => pager.pages().contains_key(
            page_id as u64,
        ) && !table.owns_page(&pager, page_id as u64),
        Some(ValueRef::OverflowChain { first_page_id, total_length, page_count }) => chain_outside(
            pager.pages(),
            table,
            pager,
            first_page_id as u64,
            pager.slots@.len(),
        ),
        _ => true,
    }
}

proof fn lemma_chain_stable(
    table: PagedBTree,
    pager: Pager,
    table2: PagedBTree,
    pager2: Pager,
    id: u64,
    fuel: nat,
    fuel2: nat,
)
    requires
        kept_outside(table, pager, table2, pager2),
        chain_outside(pager.pages(), table, pager, id, fuel),
        fuel <= fuel2,
    ensures
        chain_outside(pager2.pages(), table2, pager2, id, fuel2),
        chain_data(pager2.pages(), id, fuel2) == chain_data(pager.pages(), id, fuel),
    decreases fuel,
{
    if id != 0 {
        let next = parse_overflow(pager.pages()[id].data)->Some_0.0;
        lemma_chain_stable(
            table,
            pager,
            table2,
            pager2,
            next,
            (fuel - 1) as nat,
            (fuel2 - 1) as nat,
        );
    }
}

/// The pages outside the tree are kept outside it.
pub open spec fn kept_outside(
    table: PagedBTree,
    pager: Pager,
    table2: PagedBTree,
    pager2: Pager,
) -> bool {
    forall|p: u64| #[trigger]
        pager.pages().contains_key(p) && !table.owns_page(&pager, p) ==> {
            &&& pager2.pages().contains_key(p)
            &&& pager2.pages()[p] == pager.pages()[p]
            &&& !table2.owns_page(&pager2, p)
        }
}

/// What is outside the tree stays outside, and reads as before.
proof fn lemma_outside_kept(
    table: PagedBTree,
    pager: Pager,
    table2: PagedBTree,
    pager2: Pager,
    value: Seq<u8>,
)
    requires
        kept_outside(table, pager, table2, pager2),
        pager.slots@.len() <= pager2.slots@.len(),
        is_outside(table, pager, value),
    ensures
        is_outside(table2, pager2, value),
        resolve(pager2.pages(), pager2.slots@.len(), value) == resolve(
            pager.pages(),
            pager.slots@.len(),
            value,
        ),
{
    match ValueRef::parse(value) {
        Some(ValueRef::OverflowChain { first_page_id, total_length, page_count }) => {
            lemma_chain_stable(
                table,
                pager,
                table2,
                pager2,
                first_page_id as u64,
                pager.slots@.len(),
                pager2.slots@.len(),
            );
        },
        _ => {},
    }
}

/// A flush changes nothing for readers: where the visible version of a key is the same, and what
/// it refers to is outside the tree, the key reads as before.
pub proof fn law_flush_keeps_reads(
    table: PagedBTree,
    pager: Pager,
    table2: PagedBTree,
    pager2: Pager,
    cs: Seq<Change>,
    tx: TransactionId,
    key: Seq<u8>,
    lsn: LogSequenceNumber,
)
    requires
        kept_outside(table, pager, table2, pager2),
        pager.slots@.len() <= pager2.slots@.len(),
        table2.chains(&pager2) == with_changes(table.chains(&pager), cs, tx),
        raw_read(table.chains(&pager), key, lsn) matches Some(v) ==> is_outside(table, pager, v),
    ensures
        resolved_read(pager2.pages(), pager2.slots@.len(), table2.find(&pager2, key), lsn)
            == resolved_read(pager.pages(), pager.slots@.len(), table.find(&pager, key), lsn),
{
    law_flushed_changes_are_invisible(table.chains(&pager), cs, tx, key, lsn);
    if let Some(v) = raw_read(table.chains(&pager), key, lsn) {
        lemma_outside_kept(table, pager, table2, pager2, v);
    }
}

/// Where a scan of a table starts: a leaf and a position, or nowhere.
pub open spec fn scan_start(table: PagedBTree, pager: Pager, bounds: ScanBounds) -> Option<
    (int, int),
> {
    let n = nodes(pager.pages());
    let front = match bounds {
        ScanBounds::All => None,
        ScanBounds::Prefix(p) => Some(p@),
        ScanBounds::Range { start, end } => match start {
            Bound::Included(k) => Some(k@),
            Bound::Excluded(k) => Some(k@),
            Bound::Unbounded => None,
        },
    };
    match front {
        None => if leftmost(n, table.root_page_id.0, table.height@) is Some {
            Some((0, 0))
        } else {
            None
        },
        Some(k) => match seek_target(bounds, k) {
            SeekTarget::Nowhere => None,
            SeekTarget::At(x) => Some(place_of(table, pager, x)),
            SeekTarget::Behind(x) => {
                let (leaf, pos) = place_of(table, pager, x);
                let page = leaves(n, table.root_page_id.0, table.height@)[leaf];
                Some(
                    (
                        leaf,
                        if is_entry(n[page], pos, x) {
                            pos + 1
                        } else {
                            pos
                        },
                    ),
                )
            },
        },
    }
}

/// The leaf of `key` and the position of `key` in it.
pub open spec fn place_of(table: PagedBTree, pager: Pager, key: Seq<u8>) -> (int, int) {
    let n = nodes(pager.pages());
    let leaf = route(n, table.root_page_id.0, table.height@, key).last();
    (
        leaves(n, table.root_page_id.0, table.height@).index_of(leaf),
        index_in(n[leaf], key),
    )
}

/// The keys that a walk from a position on shows.
pub open spec fn hits(
    n: Nodes,
    ls: Seq<u64>,
    leaf: int,
    pos: int,
    bounds: ScanBounds,
    lsn: LogSequenceNumber,
) -> Seq<Seq<u8>>
    decreases ls.len() - leaf, n[ls[leaf]]->Leaf_keys.len() - pos,
{
    if leaf < 0 || leaf >= ls.len() || pos < 0 {
        Seq::empty()
    } else if pos >= n[ls[leaf]]->Leaf_keys.len() {
        hits(n, ls, leaf + 1, 0, bounds, lsn)
    } else if !bounds.admits(n[ls[leaf]]->Leaf_keys[pos]) {
        Seq::empty()
    } else if shown(n[ls[leaf]]->chains[pos], lsn) is Some {
        seq![n[ls[leaf]]->Leaf_keys[pos]] + hits(n, ls, leaf, pos + 1, bounds, lsn)
    } else {
        hits(n, ls, leaf, pos + 1, bounds, lsn)
    }
}

proof fn lemma_hits(
    n: Nodes,
    ls: Seq<u64>,
    leaf: int,
    pos: int,
    bounds: ScanBounds,
    lsn: LogSequenceNumber,
)
    ensures
        hits(n, ls, leaf, pos, bounds, lsn) == (match walk(n, ls, leaf, pos, bounds, lsn) {
            ScanStop::Found(l, p) => seq![n[ls[l]]->Leaf_keys[p]] + hits(
                n,
                ls,
                l,
                p + 1,
                bounds,
                lsn,
            ),
            _ => Seq::empty(),
        }),
        walk(n, ls, leaf, pos, bounds, lsn) matches ScanStop::Found(l, p) ==> leaf <= l && (l
            == leaf ==> pos <= p),
    decreases ls.len() - leaf, n[ls[leaf]]->Leaf_keys.len() - pos,
{
    if leaf < 0 || leaf >= ls.len() || pos < 0 {
    } else if pos >= n[ls[leaf]]->Leaf_keys.len() {
        lemma_hits(n, ls, leaf + 1, 0, bounds, lsn);
    } else if bounds.admits(n[ls[leaf]]->Leaf_keys[pos]) && shown(
        n[ls[leaf]]->chains[pos],
        lsn,
    ) is None {
        lemma_hits(n, ls, leaf, pos + 1, bounds, lsn);
    }
}

/// The keys that a scan of a table shows, in order.
pub open spec fn scan_hits(
    table: PagedBTree,
    pager: Pager,
    bounds: ScanBounds,
    lsn: LogSequenceNumber,
) -> Seq<Seq<u8>> {
    let n = nodes(pager.pages());
    match scan_start(table, pager, bounds) {
        None => Seq::empty(),
        Some((leaf, pos)) => hits(
            n,
            leaves(n, table.root_page_id.0, table.height@),
            leaf,
            pos,
            bounds,
            lsn,
        ),
    }
}

/// A deletion of each key.
pub open spec fn deletions_of(keys: Seq<Seq<u8>>) -> Seq<Change> {
    Seq::new(keys.len(), |i: int| (keys[i], None::<Seq<u8>>))
}

/// Collects the changes of one transaction.
pub struct PagedBTreeWriter<'a> {
    pub table: &'a mut PagedBTree,
    pub pager: &'a mut Pager,
    pub tx_id: TransactionId,
    pub snapshot_lsn: LogSequenceNumber,
    pub pending_changes: Vec<PendingChange>,
}

impl PagedBTree {
    /// A writer for transaction `tx_id`.
    pub fn writer<'a>(
        &'a mut self,
        pager: &'a mut Pager,
        tx_id: TransactionId,
        snapshot_lsn: LogSequenceNumber,
    ) -> (r: TableResult<PagedBTreeWriter<'a>>)
        ensures
            r is Ok,
            *r->Ok_0.table == *old(self),
            *final(self) == *final(r->Ok_0.table),
            *r->Ok_0.pager == *old(pager),
            *final(pager) == *final(r->Ok_0.pager),
            r->Ok_0.tx_id == tx_id,
            r->Ok_0.snapshot_lsn == snapshot_lsn,
            r->Ok_0.pending_changes@.len() == 0,
    {
        Ok(
            PagedBTreeWriter {
                table: self,
                pager,
                tx_id,
                snapshot_lsn,
                pending_changes: Vec::new(),
            },
        )
    }
}

impl<'a> PagedBTreeWriter<'a> {
    /// The changes that wait to be flushed.
    pub open spec fn changes(&self) -> Seq<Change> {
        changes_of(self.pending_changes@)
    }

    /// The table is a tree of the store.
    pub open spec fn wf(&self) -> bool {
        self.table.wf(self.pager)
    }

    /// The versions of each key.
    pub open spec fn chains(&self) -> Chains {
        self.table.chains(self.pager)
    }

    /// What a read of `key` at the writer's snapshot gives.
    pub open spec fn reads(&self, key: Seq<u8>) -> Result<Option<Seq<u8>>, TableError> {
        resolved_read(
            self.pager.pages(),
            self.pager.slots@.len(),
            self.table.find(self.pager, key),
            self.snapshot_lsn,
        )
    }

    /// The keys within the bounds that the writer's snapshot shows.
    pub open spec fn scan_keys(&self, bounds: ScanBounds) -> Seq<Seq<u8>> {
        scan_hits(*self.table, *self.pager, bounds, self.snapshot_lsn)
    }

    /// Notes a value to put. Returns the bytes it counts for.
    pub fn put(&mut self, key: &[u8], value: &[u8]) -> (r: TableResult<u64>)
        requires
            key@.len() + value@.len() + 16 <= usize::MAX,
        ensures
            final(self).changes() == old(self).changes().push((key@, Some(value@))),
            *final(self).table == *old(self).table,
            *final(final(self).table) == *final(old(self).table),
            *final(self).pager == *old(self).pager,
            *final(final(self).pager) == *final(old(self).pager),
            final(self).tx_id == old(self).tx_id,
            final(self).snapshot_lsn == old(self).snapshot_lsn,
            r == Ok::<u64, TableError>((key@.len() + value@.len() + 16) as u64),
    {
        self.pending_changes.push(
            PendingChange::Inline { key: copy_bytes(key), value: copy_bytes(value) },
        );
        proof {
            assert(self.changes() =~= old(self).changes().push((key@, Some(value@))));
        }
        Ok((key.len() + value.len() + 16) as u64)
    }

    /// The largest streamed value that is kept in the tree itself.
    pub fn max_inline_size(&self) -> (r: Option<usize>)
        ensures
            r == Some(MAX_INLINE),
    {
        Some(MAX_INLINE)
    }

    /// Notes a deletion, if the writer's snapshot sees the key. Returns whether it does.
    pub fn delete(&mut self, key: &[u8]) -> (r: TableResult<bool>)
        requires
            old(self).wf(),
        ensures
            *final(self).table == *old(self).table,
            *final(final(self).table) == *final(old(self).table),
            *final(self).pager == *old(self).pager,
            *final(final(self).pager) == *final(old(self).pager),
            final(self).tx_id == old(self).tx_id,
            final(self).snapshot_lsn == old(self).snapshot_lsn,
            match old(self).reads(key@) {
                Ok(Some(_)) => r == Ok::<bool, TableError>(true) && final(self).changes() == old(self).changes().push((key@, None)),
                Ok(None) => r == Ok::<bool, TableError>(false) && final(self).changes() == old(self).changes(),
                Err(e) => r == Err::<bool, TableError>(e) && final(self).changes() == old(self).changes(),
            },
    {
        let found = match self.table.get_internal(self.pager, key, self.snapshot_lsn) {
            Ok(v) => v,
            Err(e) => {
                return Err(e);
            },
        };
        if found.is_some() {
            self.pending_changes.push(PendingChange::Delete { key: copy_bytes(key) });
            proof {
                assert(self.changes() =~= old(self).changes().push((key@, None)));
            }
            Ok(true)
        } else {
            Ok(false)
        }
    }

    /// Notes a deletion of every key within the bounds that the writer's snapshot shows. Returns
    /// how many there are.
    pub fn range_delete(&mut self, bounds: ScanBounds) -> (r: TableResult<u64>)
        requires
            old(self).wf(),
            old(self).scan_keys(bounds).len() <= u64::MAX,
        ensures
            *final(self).table == *old(self).table,
            *final(final(self).table) == *final(old(self).table),
            *final(self).pager == *old(self).pager,
            *final(final(self).pager) == *final(old(self).pager),
            final(self).tx_id == old(self).tx_id,
            final(self).snapshot_lsn == old(self).snapshot_lsn,
            final(self).changes() == old(self).changes() + deletions_of(
                old(self).scan_keys(bounds),
            ),
            r == Ok::<u64, TableError>(old(self).scan_keys(bounds).len() as u64),
    {
        let keys = collect_hits(&*self.table, &*self.pager, bounds, self.snapshot_lsn);
        let ghost all = key_views(keys@);
        let count: u64 = keys.len() as u64;
        let n: usize = keys.len();
        let mut i: usize = 0;
        proof {
            assert(all.take(0) =~= Seq::empty());
            assert(self.changes() =~= old(self).changes() + deletions_of(all.take(0)));
        }
        while i < n
            invariant
                n == keys@.len(),
                i <= n,
                all == key_views(keys@),
                *self.table == *old(self).table,
                *final(self.table) == *final(old(self).table),
                *self.pager == *old(self).pager,
                *final(self.pager) == *final(old(self).pager),
                self.tx_id == old(self).tx_id,
                self.snapshot_lsn == old(self).snapshot_lsn,
                self.changes() == old(self).changes() + deletions_of(all.take(i as int)),
            decreases n - i,
        {
            let ghost before = self.changes();
            let key = copy_bytes(keys[i].as_slice());
            self.pending_changes.push(PendingChange::Delete { key });
            proof {
                assert(self.changes() =~= before.push((all[i as int], None)));
                assert(deletions_of(all.take(i + 1)) =~= deletions_of(all.take(i as int)).push(
                    (all[i as int], None),
                ));
                assert(self.changes() =~= old(self).changes() + deletions_of(all.take(i + 1)));
            }
            i += 1;
        }
        proof {
            assert(all.take(n as int) =~= all);
        }
        Ok(count)
    }

    /// The values of several keys at the writer's snapshot; the first error ends it.
    pub fn batch_get(&self, keys: &[&[u8]]) -> (r: TableResult<Vec<Option<ValueBuf>>>)
        requires
            self.wf(),
        ensures
            match r {
                Ok(values) => values@.len() == keys@.len() && forall|i: int|
                    0 <= i < keys@.len() ==> self.reads((#[trigger] keys@[i])@) == Ok::<
                        Option<Seq<u8>>,
                        TableError,
                    >(value_view(values@[i])),
                Err(e) => exists|i: int|
                    0 <= i < keys@.len() && self.reads((#[trigger] keys@[i])@) == Err::<
                        Option<Seq<u8>>,
                        TableError,
                    >(e),
            },
    {
        let mut results: Vec<Option<ValueBuf>> = Vec::new();
        let mut i: usize = 0;
        while i < keys.len()
            invariant
                self.wf(),
                i <= keys@.len(),
                results@.len() == i,
                forall|j: int|
                    0 <= j < i ==> self.reads((#[trigger] keys@[j])@) == Ok::<
                        Option<Seq<u8>>,
                        TableError,
                    >(value_view(results@[j])),
            decreases keys@.len() - i,
        {
            match self.table.get_internal(self.pager, keys[i], self.snapshot_lsn) {
                Ok(v) => {
                    results.push(v);
                },
                Err(e) => {
                    assert(self.reads(keys@[i as int]@) == Err::<Option<Seq<u8>>, TableError>(e));
                    return Err(e);
                },
            }
            i += 1;
        }
        Ok(results)
    }

    /// Commits every version that this transaction left pending.
    pub fn commit_versions(&mut self, commit_lsn: LogSequenceNumber) -> (r: TableResult<()>)
        requires
            old(self).wf(),
        ensures
            *final(self).table == *old(self).table,
            *final(final(self).table) == *final(old(self).table),
            *final(final(self).pager) == *final(old(self).pager),
            final(self).tx_id == old(self).tx_id,
            final(self).snapshot_lsn == old(self).snapshot_lsn,
            final(self).changes() == old(self).changes(),
            final(self).pager.wf(),
            final(self).pager.same_meta(old(self).pager),
            ({
                let n = nodes(old(self).pager.pages());
                let ls = leaves(n, old(self).table.root_page_id.0, old(self).table.height@);
                let op = LeafChange::Commit { tx: old(self).tx_id, lsn: commit_lsn };
                &&& r is Ok <==> change_fits(n, ls, op, old(self).pager.capacity())
                &&& r is Ok ==> {
                    &&& final(self).wf()
                    &&& final(self).chains() == old(self).chains().map_values(
                        |vs: Seq<Version>| commit_of(vs, old(self).tx_id, commit_lsn),
                    )
                    &&& kept_outside(
                        *old(self).table,
                        *old(self).pager,
                        *final(self).table,
                        *final(self).pager,
                    )
                }
                &&& r matches Err(e) ==> e is Pager && e->Pager_0 is PageOverflow
            }),
    {
        self.table.commit_versions_for_tx(self.pager, self.tx_id, commit_lsn)
    }

    /// The transaction of the writer.
    pub fn tx_id(&self) -> (r: TransactionId)
        ensures
            r == self.tx_id,
    {
        self.tx_id
    }

    /// The point of the log that the writer was made for.
    pub fn snapshot_lsn(&self) -> (r: LogSequenceNumber)
        ensures
            r == self.snapshot_lsn,
    {
        self.snapshot_lsn
    }
}

/// The value went to new overflow pages, and `stored` refers to them. It reads as the value where
/// the number of the first page fits a reference.
pub open spec fn is_streamed(
    before: Map<u64, PageView>,
    after: Map<u64, PageView>,
    fuel: nat,
    value: Seq<u8>,
    stored: Seq<u8>,
) -> bool {
    exists|ids: Seq<PageId>, chunks: Seq<Seq<u8>>| #[trigger]
        pages_added(before, after, ids, chunks) && joined(chunks) == value && 0 < ids.len() <= fuel
            && stored == reference_to(ids, value.len() as int).bytes() && (ids[0].0 <= u32::MAX
            ==> resolve(after, fuel, stored) == Ok::<Option<Seq<u8>>, TableError>(Some(value)))
}

impl<'a> PagedBTreeWriter<'a> {
    /// What a streamed put left of the writer: the value is noted, in the tree or outside it.
    pub open spec fn has_streamed(
        &self,
        before: &Self,
        key: Seq<u8>,
        value: Seq<u8>,
        inline: bool,
    ) -> bool {
        let n = before.changes().len() as int;
        &&& self.changes().len() == n + 1
        &&& self.changes().take(n) == before.changes()
        &&& self.changes()[n].0 == key
        &&& if inline || value.len() == 0 {
            &&& self.changes()[n].1 == Some(value)
            &&& self.pager.pages() == before.pager.pages()
        } else {
            &&& self.changes()[n].1 is Some
            &&& is_streamed(
                before.pager.pages(),
                self.pager.pages(),
                self.pager.slots@.len(),
                value,
                self.changes()[n].1->Some_0,
            )
            &&& all_kept(before.pager.pages(), self.pager.pages())
        }
    }

    /// The table is as it was, and if it was a tree of the store it still is, with the same
    /// contents.
    pub open spec fn keeps_tree(&self, before: &Self) -> bool {
        &&& *self.table == *before.table
        &&& self.tx_id == before.tx_id
        &&& self.snapshot_lsn == before.snapshot_lsn
        &&& self.pager.wf()
        &&& self.pager.same_meta(before.pager)
        &&& before.wf() ==> self.wf() && self.chains() == before.chains()
    }

    /// Notes a value that is read from a stream: in the tree where the stream says that it is
    /// small, outside it where the stream says that it is large, and by its size where the stream
    /// says nothing. Returns the bytes it counts for, or the stream's error.
    pub fn put_stream<S: ValueStream>(&mut self, key: &[u8], stream: &mut S) -> (r: TableResult<
        u64,
    >)
        requires
            old(self).pager.wf(),
            key@.len() + old(stream).remaining().len() + 16 <= usize::MAX,
        ensures
            *final(final(self).table) == *final(old(self).table),
            *final(final(self).pager) == *final(old(self).pager),
            final(self).keeps_tree(old(self)),
            ({
                let value = old(stream).remaining();
                match r {
                    Ok(n) => {
                        &&& n == key@.len() + value.len() + 16
                        &&& final(self).has_streamed(
                            old(self),
                            key@,
                            value,
                            match old(stream).hint() {
                                Some(size) => size <= MAX_INLINE,
                                None => value.len() <= MAX_INLINE,
                            },
                        )
                        &&& final(stream).remaining().len() == 0
                    },
                    Err(e) => {
                        &&& final(self).changes() == old(self).changes()
                        &&& final(self).pager.pages() == old(self).pager.pages()
                        &&& final(stream).failure() == Some(e)
                    },
                }
            }),
            old(stream).sound() ==> r is Ok,
    {
        match stream.size_hint() {
            Some(size) => {
                if size <= MAX_INLINE as u64 {
                    self.put_stream_inline(key, stream)
                } else {
                    self.put_stream_external(key, &[], stream)
                }
            },
            None => self.put_stream_adaptive(key, stream),
        }
    }

    /// Reads a stream into memory and notes its value.
    fn put_stream_inline<S: ValueStream>(&mut self, key: &[u8], stream: &mut S) -> (r: TableResult<
        u64,
    >)
        requires
            old(self).pager.wf(),
            key@.len() + old(stream).remaining().len() + 16 <= usize::MAX,
        ensures
            *final(final(self).table) == *final(old(self).table),
            *final(final(self).pager) == *final(old(self).pager),
            final(self).keeps_tree(old(self)),
            match r {
                Ok(n) => {
                    &&& n == key@.len() + old(stream).remaining().len() + 16
                    &&& final(self).has_streamed(
                        old(self),
                        key@,
                        old(stream).remaining(),
                        true,
                    )
                    &&& final(stream).remaining().len() == 0
                },
                Err(e) => {
                    &&& final(self).changes() == old(self).changes()
                    &&& final(self).pager.pages() == old(self).pager.pages()
                    &&& final(stream).failure() == Some(e)
                },
            },
            old(stream).sound() ==> r is Ok,
    {
        match read_to_end(stream) {
            Ok(buffer) => {
                let total: usize = key.len() + buffer.len() + 16;
                self.pending_changes.push(
                    PendingChange::Inline { key: copy_bytes(key), value: buffer },
                );
                proof {
                    assert(self.changes().take(old(self).changes().len() as int) =~= old(self).changes());
                }
                Ok(total as u64)
            },
            Err(e) => Err(e),
        }
    }

    /// Writes what was read of a value, and the rest that a stream gives, into overflow pages, and
    /// notes a reference to them. An empty value goes into the tree.
    fn put_stream_external<S: ValueStream>(
        &mut self,
        key: &[u8],
        front: &[u8],
        stream: &mut S,
    ) -> (r: TableResult<u64>)
        requires
            old(self).pager.wf(),
            key@.len() + front@.len() + old(stream).remaining().len() + 16 <= usize::MAX,
        ensures
            *final(final(self).table) == *final(old(self).table),
            *final(final(self).pager) == *final(old(self).pager),
            final(self).keeps_tree(old(self)),
            match r {
                Ok(n) => {
                    &&& n == key@.len() + front@.len() + old(stream).remaining().len() + 16
                    &&& final(self).has_streamed(
                        old(self),
                        key@,
                        front@ + old(stream).remaining(),
                        false,
                    )
                    &&& final(stream).remaining().len() == 0
                },
                Err(e) => {
                    &&& final(self).changes() == old(self).changes()
                    &&& final(self).pager.pages() == old(self).pager.pages()
                    &&& final(stream).failure() == Some(e)
                },
            },
            old(stream).sound() ==> r is Ok,
    {
        let ghost value = front@ + stream.remaining();
        let ghost pager0 = *self.pager;
        let ghost table0 = *self.table;
        let (ids, chunks) = match write_stream(self.pager, front, stream) {
            Ok(t) => t,
            Err(e) => {
                proof {
                    if old(self).wf() {
                        lemma_tree_survives(table0, pager0, *self.pager);
                    }
                }
                return Err(e);
            },
        };
        proof {
            if old(self).wf() {
                lemma_tree_survives(table0, pager0, *self.pager);
            }
        }
        let ghost added = self.pager.pages();
        let total: usize = streamed_len(&*self.pager, &ids, chunks);
        if ids.len() == 0 {
            proof {
                assert(value.len() == 0) by {
                    assert(chunks@ =~= Seq::empty());
                }
                assert(added =~= pager0.pages()) by {
                    assert forall|p: u64| #[trigger] added.contains_key(p) implies pager0.pages().contains_key(
                        p,
                    ) by {
                        if ids@.contains(PageId(p)) {
                            let i = ids@.index_of(PageId(p));
                            assert(0 <= i < ids@.len());
                        }
                    }
                }
            }
            let empty: Vec<u8> = Vec::new();
            self.pending_changes.push(
                PendingChange::Inline { key: copy_bytes(key), value: empty },
            );
            proof {
                assert(empty@ =~= value);
                assert(self.changes().take(old(self).changes().len() as int) =~= old(self).changes());
            }
            return Ok((key.len() + 16) as u64);
        }
        let value_ref = if ids.len() == 1 {
            ValueRef::SinglePage {
                page_id: ids[0].0 as u32,
                offset: OVERFLOW_HEADER_SIZE as u16,
                length: total as u32,
            }
        } else {
            ValueRef::OverflowChain {
                first_page_id: ids[0].0 as u32,
                total_length: total as u64,
                page_count: ids.len() as u32,
            }
        };
        proof {
            assert(value_ref == reference_to(ids@, value.len() as int));
            assert(value.len() > 0) by {
                assert(chunks@.last().len() > 0);
                assert(joined(chunks@).len() >= chunks@.last().len());
            }
            if ids@[0].0 <= u32::MAX {
                law_reference_resolves(added, self.pager.slots@.len(), ids@, chunks@);
            }
            assert(pages_added(pager0.pages(), added, ids@, chunks@));
        }
        self.pending_changes.push(PendingChange::External { key: copy_bytes(key), value_ref });
        proof {
            assert(self.changes().take(old(self).changes().len() as int) =~= old(self).changes());
        }
        Ok((key.len() + total + 16) as u64)
    }

    /// Reads a stream into memory as long as it stays small, and else into overflow pages.
    fn put_stream_adaptive<S: ValueStream>(&mut self, key: &[u8], stream: &mut S) -> (r: TableResult<
        u64,
    >)
        requires
            old(self).pager.wf(),
            key@.len() + old(stream).remaining().len() + 16 <= usize::MAX,
        ensures
            *final(final(self).table) == *final(old(self).table),
            *final(final(self).pager) == *final(old(self).pager),
            final(self).keeps_tree(old(self)),
            match r {
                Ok(n) => {
                    &&& n == key@.len() + old(stream).remaining().len() + 16
                    &&& final(self).has_streamed(
                        old(self),
                        key@,
                        old(stream).remaining(),
                        old(stream).remaining().len() <= MAX_INLINE,
                    )
                    &&& final(stream).remaining().len() == 0
                },
                Err(e) => {
                    &&& final(self).changes() == old(self).changes()
                    &&& final(self).pager.pages() == old(self).pager.pages()
                    &&& final(stream).failure() == Some(e)
                },
            },
            old(stream).sound() ==> r is Ok,
    {
        let ghost value = stream.remaining();
        let mut buffer: Vec<u8> = Vec::new();
        let mut chunk: Vec<u8> = Vec::new();
        let mut filled: usize = 0;
        while filled < CHUNK_SIZE
            invariant
                filled <= CHUNK_SIZE,
                chunk@.len() == filled,
            decreases CHUNK_SIZE - filled,
        {
            chunk.push(0);
            filled += 1;
        }
        assert(buffer@ + stream.remaining() =~= value);
        loop
            invariant
                *self == *old(self),
                self.pager.wf(),
                chunk@.len() == CHUNK_SIZE,
                value == old(stream).remaining(),
                key@.len() + value.len() + 16 <= usize::MAX,
                buffer@.len() <= MAX_INLINE,
                buffer@ + stream.remaining() == value,
                old(stream).sound() ==> stream.sound(),
            decreases stream.remaining().len(),
        {
            let ghost had = stream.remaining();
            let n: usize = match stream.read(chunk.as_mut_slice()) {
                Ok(n) => n,
                Err(e) => {
                    return Err(e);
                },
            };
            if n == 0 {
                proof {
                    assert(chunk@.take(0) + stream.remaining() =~= stream.remaining());
                    assert(buffer@ =~= value);
                }
                let total: usize = key.len() + buffer.len() + 16;
                self.pending_changes.push(
                    PendingChange::Inline { key: copy_bytes(key), value: buffer },
                );
                proof {
                    assert(self.changes().take(old(self).changes().len() as int) =~= old(self).changes());
                }
                return Ok(total as u64);
            }
            let ghost so_far = buffer@;
            let over: bool = n > MAX_INLINE || buffer.len() > MAX_INLINE - n;
            append_bytes(&mut buffer, vstd::slice::slice_subrange(chunk.as_slice(), 0, n));
            proof {
                assert(chunk@.subrange(0, n as int) =~= chunk@.take(n as int));
                assert(buffer@ + stream.remaining() =~= so_far + (chunk@.take(n as int)
                    + stream.remaining()));
            }
            if over {
                assert(value.len() > MAX_INLINE);
                return self.put_stream_external(key, buffer.as_slice(), stream);
            }
        }
    }

    /// Whether stored bytes are a reference to a value outside the tree. Both the tag and the
    /// length are checked, so that few other values are taken for one.
    pub fn is_external_value(value: &[u8]) -> (r: bool)
        ensures
            r == is_reference(value@),
    {
        match ValueRef::decode(value) {
            Ok(v) => v.requires_overflow(),
            Err(_) => false,
        }
    }

    /// Releases the pages that a reference names.
    pub fn free_value_ref(&mut self, value_ref: &ValueRef) -> (r: TableResult<()>)
        requires
            old(self).pager.wf(),
        ensures
            *final(self).table == *old(self).table,
            *final(final(self).table) == *final(old(self).table),
            *final(final(self).pager) == *final(old(self).pager),
            final(self).pager.wf(),
            final(self).pager.same_meta(old(self).pager),
            final(self).tx_id == old(self).tx_id,
            final(self).snapshot_lsn == old(self).snapshot_lsn,
            final(self).pending_changes == old(self).pending_changes,
            match release_result(
                old(self).pager.pages(),
                old(self).pager.slots@.len(),
                *value_ref,
            ) {
                Ok(pages) => r is Ok && final(self).pager.pages() == pages,
                Err(e) => r == Err::<(), TableError>(e),
            },
    {
        match *value_ref {
            ValueRef::Inline => Ok(()),
            ValueRef::SinglePage { page_id, offset: _, length: _ } => {
                match self.pager.free_page(PageId(page_id as u64)) {
                    Ok(()) => Ok(()),
                    Err(e) => Err(TableError::Pager(e)),
                }
            },
            ValueRef::OverflowChain { first_page_id, total_length: _, page_count: _ } => {
                free_overflow_chain(self.pager, PageId(first_page_id as u64))
            },
        }
    }
}

/// The number of bytes that a stream left in overflow pages.
fn streamed_len(pager: &Pager, ids: &Vec<PageId>, chunks: Ghost<Seq<Seq<u8>>>) -> (r: usize)
    requires
        pager.wf(),
        crate::btree::streaming::holds_chunks(pager.pages(), ids@, chunks@),
        joined(chunks@).len() <= usize::MAX,
    ensures
        r == joined(chunks@).len(),
{
    let n: usize = ids.len();
    let mut i: usize = 0;
    let mut total: usize = 0;
    proof {
        assert(chunks@.take(0) =~= Seq::empty());
    }
    while i < n
        invariant
            pager.wf(),
            crate::btree::streaming::holds_chunks(pager.pages(), ids@, chunks@),
            joined(chunks@).len() <= usize::MAX,
            n == ids@.len(),
            i <= n,
            total == joined(chunks@.take(i as int)).len(),
        decreases n - i,
    {
        proof {
            assert(chunks@.take(i + 1).drop_last() =~= chunks@.take(i as int));
            assert(chunks@.take(i + 1).last() == chunks@[i as int]);
            crate::btree::streaming::lemma_joined_from(chunks@, i + 1);
            crate::overflow::lemma_overflow_round_trip(
                crate::btree::streaming::next_id(ids@, i as int),
                chunks@[i as int],
            );
            assert(pager.pages().contains_key(ids@[i as int].0));
        }
        match pager.read_page(ids[i]) {
            Ok(page) => {
                total = total + (page.data.len() - OVERFLOW_HEADER_SIZE);
            },
            Err(_) => {},
        }
        i += 1;
    }
    proof {
        assert(chunks@.take(n as int) =~= chunks@);
    }
    total
}

/// The bytes of several keys.
pub open spec fn key_views(keys: Seq<Vec<u8>>) -> Seq<Seq<u8>> {
    Seq::new(keys.len(), |i: int| keys[i]@)
}

/// The keys that a scan of a table shows.
fn collect_hits(
    table: &PagedBTree,
    pager: &Pager,
    bounds: ScanBounds,
    lsn: LogSequenceNumber,
) -> (r: Vec<Vec<u8>>)
    requires
        table.wf(pager),
    ensures
        key_views(r@) == scan_hits(*table, *pager, bounds, lsn),
{
    let ghost n = nodes(pager.pages());
    let ghost ls = leaves(n, table.root_page_id.0, table.height@);
    let ghost all = scan_hits(*table, *pager, bounds, lsn);
    let mut keys: Vec<Vec<u8>> = Vec::new();
    let mut cursor = PagedBTreeCursor::new(table, pager, bounds, lsn);
    let ghost mut left: Seq<Seq<u8>> = Seq::empty();
    let ghost mut at: (int, int) = (0, 0);
    proof {
        if let Some((leaf, pos)) = scan_start(*table, *pager, bounds) {
            lemma_hits(n, ls, leaf, pos, bounds, lsn);
            if let ScanStop::Found(l, p) = walk(n, ls, leaf, pos, bounds, lsn) {
                at = (l, p);
            }
        }
        if cursor.exhausted || cursor.current_key is None {
            left = Seq::empty();
        } else {
            left = seq![n[ls[at.0]]->Leaf_keys[at.1]] + hits(n, ls, at.0, at.1 + 1, bounds, lsn);
        }
        assert(key_views(keys@) + left =~= all);
    }
    while cursor.valid()
        invariant
            table.wf(pager),
            *cursor.table == *table,
            *cursor.pager == *pager,
            cursor.bounds == bounds,
            cursor.snapshot_lsn == lsn,
            n == nodes(pager.pages()),
            ls == leaves(n, table.root_page_id.0, table.height@),
            key_views(keys@) + left == all,
            if cursor.exhausted || cursor.current_key is None {
                left == Seq::<Seq<u8>>::empty()
            } else {
                &&& cursor.ready()
                &&& cursor.is_at(at.0, at.1)
                &&& cursor.shows(at.0, at.1)
                &&& left == seq![n[ls[at.0]]->Leaf_keys[at.1]] + hits(
                    n,
                    ls,
                    at.0,
                    at.1 + 1,
                    bounds,
                    lsn,
                )
            },
        decreases (if cursor.exhausted || cursor.current_key is None {
            0int
        } else {
            ls.len() - at.0 + 1
        }), n[ls[at.0]]->Leaf_keys.len() - at.1,
    {
        let ghost key_now = n[ls[at.0]]->Leaf_keys[at.1];
        let ghost done = key_views(keys@);
        match cursor.key() {
            Some(k) => {
                keys.push(copy_bytes(k));
            },
            None => {},
        }
        proof {
            assert(key_views(keys@) =~= done.push(key_now));
            lemma_hits(n, ls, at.0, at.1 + 1, bounds, lsn);
            assert(cursor.leaves()[at.0] == ls[at.0]);
        }
        let _ = cursor.next();
        proof {
            let stop = walk(n, ls, at.0, at.1 + 1, bounds, lsn);
            assert(cursor.stopped_at(stop));
            left = hits(n, ls, at.0, at.1 + 1, bounds, lsn);
            assert(key_views(keys@) + left =~= done + (seq![key_now] + left));
            if let ScanStop::Found(l, p) = stop {
                at = (l, p);
            }
        }
    }
    proof {
        assert(key_views(keys@) + Seq::<Seq<u8>>::empty() =~= key_views(keys@));
    }
    keys
}

/// The number of rows after changes, in order: one more for each new key, one less for each
/// deletion of a known one.
pub open spec fn rows_after(m: Chains, rows: int, cs: Seq<Change>, tx: TransactionId) -> int
    decreases cs.len(),
{
    if cs.len() == 0 {
        rows
    } else {
        rows_after_change(
            with_changes(m, cs.drop_last(), tx),
            rows_after(m, rows, cs.drop_last(), tx),
            cs.last(),
        )
    }
}

/// The number of rows after one change.
pub open spec fn rows_after_change(m: Chains, rows: int, c: Change) -> int {
    let known = m.contains_key(c.0);
    match c.1 {
        Some(_) => if known {
            rows
        } else {
            rows + 1
        },
        None => if known && rows > 0 {
            rows - 1
        } else {
            rows
        },
    }
}

/// A put has room in the tree: in its leaf, and on the way to it for the separators that it hands up.
pub open spec fn put_fits(
    t: PagedBTree,
    p: Pager,
    key: Seq<u8>,
    value: Seq<u8>,
    tx: TransactionId,
) -> bool {
    let n = nodes(p.pages());
    put_has_room(
        n,
        t.root_page_id.0,
        t.height@,
        p.capacity(),
        key,
        put_version(t.find(&p, key), value, tx, LogSequenceNumber(0)),
    )
}

/// What a put that does not fit leaves of a table: all as it was where the leaf has no room, and a
/// torn tree where a node above it has none.
pub open spec fn is_failed_put(
    t: PagedBTree,
    p: Pager,
    t2: PagedBTree,
    p2: Pager,
    key: Seq<u8>,
    value: Seq<u8>,
    tx: TransactionId,
) -> bool {
    let n = nodes(p.pages());
    let vs = put_version(t.find(&p, key), value, tx, LogSequenceNumber(0));
    &&& !put_fits(t, p, key, value, tx)
    &&& t2 == t
    &&& if leaf_has_room(n, t.root_page_id.0, t.height@, p.capacity(), key, vs) {
        is_torn(n, nodes(p2.pages()), t.root_page_id.0, t.height@, p.capacity(), key, vs)
    } else {
        p2.pages() == p.pages()
    }
}

/// A change is refused with an error: its key cannot be read, or it does not fit. That is what it
/// leaves of the table.
pub open spec fn is_refused(
    t: PagedBTree,
    p: Pager,
    t2: PagedBTree,
    p2: Pager,
    lsn: LogSequenceNumber,
    c: Change,
    tx: TransactionId,
    e: TableError,
) -> bool {
    ||| resolved_read(p.pages(), p.slots@.len(), t.find(&p, c.0), lsn) == Err::<
        Option<Seq<u8>>,
        TableError,
    >(e) && t2 == t && p2 == p
    ||| e is Pager && e->Pager_0 is PageOverflow && match c.1 {
        Some(v) => is_failed_put(t, p, t2, p2, c.0, v, tx),
        None => node_bytes(
            leaf_with_tombstone(nodes(p.pages())[t.leaf_of(&p, c.0)], c.0, tx),
        ).len() > p.capacity() && t2 == t && p2.pages() == p.pages(),
    }
}

impl<'a> PagedBTreeWriter<'a> {
    /// Writes one change to the tree as a pending version.
    fn apply_change(&mut self, change: PendingChange) -> (r: TableResult<()>)
        requires
            old(self).wf(),
            old(self).table.row_count < u64::MAX,
        ensures
            final(self).pending_changes == old(self).pending_changes,
            *final(final(self).table) == *final(old(self).table),
            *final(final(self).pager) == *final(old(self).pager),
            final(self).tx_id == old(self).tx_id,
            final(self).snapshot_lsn == old(self).snapshot_lsn,
            final(self).pager.wf(),
            final(self).pager.slots@.len() >= old(self).pager.slots@.len(),
            final(self).table.same_identity(old(self).table),
            match r {
                Ok(()) => {
                    &&& final(self).wf()
                    &&& final(self).chains() == with_change(
                        old(self).chains(),
                        change.change(),
                        old(self).tx_id,
                    )
                    &&& final(self).table.row_count as int == rows_after_change(
                        old(self).chains(),
                        old(self).table.row_count as int,
                        change.change(),
                    )
                    &&& kept_outside(
                        *old(self).table,
                        *old(self).pager,
                        *final(self).table,
                        *final(self).pager,
                    )
                },
                Err(e) => is_refused(
                    *old(self).table,
                    *old(self).pager,
                    *final(self).table,
                    *final(self).pager,
                    old(self).snapshot_lsn,
                    change.change(),
                    old(self).tx_id,
                    e,
                ),
            },
    {
        let ghost c = change.change();
        let ghost m = self.chains();
        let ghost table0 = *self.table;
        let ghost pager0 = *self.pager;
        match change {
            PendingChange::Inline { key, value } => {
                match self.read_replaced(key.as_slice()) {
                    Ok(()) => {},
                    Err(e) => {
                        return Err(e);
                    },
                }
                self.insert_pending(key, value)
            },
            PendingChange::External { key, value_ref } => {
                match self.read_replaced(key.as_slice()) {
                    Ok(()) => {},
                    Err(e) => {
                        return Err(e);
                    },
                }
                self.insert_pending(key, value_ref.encode())
            },
            PendingChange::Delete { key } => {
                match self.read_replaced(key.as_slice()) {
                    Ok(()) => {},
                    Err(e) => {
                        return Err(e);
                    },
                }
                match self.table.delete_internal(
                    self.pager,
                    key.as_slice(),
                    self.tx_id,
                    LogSequenceNumber(0),
                ) {
                    Ok(known) => {
                        proof {
                            assert forall|p: u64| #[trigger]
                                pager0.pages().contains_key(p) && !table0.owns_page(
                                    &pager0,
                                    p,
                                ) implies {
                                &&& self.pager.pages().contains_key(p)
                                &&& self.pager.pages()[p] == pager0.pages()[p]
                                &&& !self.table.owns_page(self.pager, p)
                            } by {
                                if !known {
                                    assert(self.table.owns_page(self.pager, p)
                                        == table0.owns_page(&pager0, p));
                                }
                            }
                            if !known {
                                assert(self.chains() =~= m);
                            }
                        }
                        Ok(())
                    },
                    Err(e) => Err(e),
                }
            },
        }
    }

    /// Reads the value that a change is about to replace: where it cannot be read, the change is
    /// refused. What a replaced reference names stays in place, since readers of the versions
    /// before the change still come to it.
    fn read_replaced(&self, key: &[u8]) -> (r: TableResult<()>)
        requires
            self.wf(),
        ensures
            match self.reads(key@) {
                Ok(_) => r is Ok,
                Err(e) => r == Err::<(), TableError>(e),
            },
    {
        match self.table.get_internal(&*self.pager, key, self.snapshot_lsn) {
            Ok(_) => Ok(()),
            Err(e) => Err(e),
        }
    }

    fn insert_pending(&mut self, key: Vec<u8>, value: Vec<u8>) -> (r: TableResult<()>)
        requires
            old(self).wf(),
            old(self).table.row_count < u64::MAX,
        ensures
            final(self).pending_changes == old(self).pending_changes,
            *final(final(self).table) == *final(old(self).table),
            *final(final(self).pager) == *final(old(self).pager),
            final(self).tx_id == old(self).tx_id,
            final(self).snapshot_lsn == old(self).snapshot_lsn,
            final(self).pager.wf(),
            final(self).pager.slots@.len() >= old(self).pager.slots@.len(),
            final(self).table.same_identity(old(self).table),
            match r {
                Ok(()) => {
                    &&& final(self).wf()
                    &&& final(self).chains() == with_put(
                        old(self).chains(),
                        key@,
                        value@,
                        old(self).tx_id,
                    )
                    &&& final(self).table.row_count == old(self).table.row_count + (if old(self).chains().contains_key(key@) {
                        0int
                    } else {
                        1int
                    })
                    &&& kept_outside(
                        *old(self).table,
                        *old(self).pager,
                        *final(self).table,
                        *final(self).pager,
                    )
                },
                Err(e) => e is Pager && e->Pager_0 is PageOverflow && is_failed_put(
                    *old(self).table,
                    *old(self).pager,
                    *final(self).table,
                    *final(self).pager,
                    key@,
                    value@,
                    old(self).tx_id,
                ),
            },
    {
        let ghost m = self.chains();
        let ghost k = key@;
        let ghost v = value@;
        let r = self.table.insert_internal(
            self.pager,
            key,
            value,
            self.tx_id,
            LogSequenceNumber(0),
        );
        proof {
            if r is Ok {
                assert(put_version(
                    old(self).table.find(old(self).pager, k),
                    v,
                    self.tx_id,
                    LogSequenceNumber(0),
                ) =~= seq![pending(v, self.tx_id)] + chain_of(m, k));
                assert(self.chains() =~= with_put(m, k, v, self.tx_id));
            }
        }
        r
    }

    /// Writes the noted changes to the tree as pending versions, in order. The first one that is
    /// refused ends it; the changes are forgotten in any case.
    pub fn flush(&mut self) -> (r: TableResult<()>)
        requires
            old(self).wf(),
            old(self).table.row_count + old(self).changes().len() <= u64::MAX,
        ensures
            final(self).pending_changes@.len() == 0,
            *final(final(self).table) == *final(old(self).table),
            *final(final(self).pager) == *final(old(self).pager),
            final(self).tx_id == old(self).tx_id,
            final(self).snapshot_lsn == old(self).snapshot_lsn,
            final(self).pager.wf(),
            final(self).pager.slots@.len() >= old(self).pager.slots@.len(),
            final(self).table.same_identity(old(self).table),
            match r {
                Ok(()) => {
                    &&& final(self).wf()
                    &&& final(self).chains() == with_changes(
                        old(self).chains(),
                        old(self).changes(),
                        old(self).tx_id,
                    )
                    &&& final(self).table.row_count as int == rows_after(
                        old(self).chains(),
                        old(self).table.row_count as int,
                        old(self).changes(),
                        old(self).tx_id,
                    )
                    &&& kept_outside(
                        *old(self).table,
                        *old(self).pager,
                        *final(self).table,
                        *final(self).pager,
                    )
                },
                Err(e) => exists|i: int, t: PagedBTree, p: Pager|
                    0 <= i < old(self).changes().len() && t.wf(&p) && t.chains(&p) == with_changes(
                        old(self).chains(),
                        old(self).changes().take(i),
                        old(self).tx_id,
                    ) && #[trigger] is_refused(
                        t,
                        p,
                        *final(self).table,
                        *final(self).pager,
                        old(self).snapshot_lsn,
                        old(self).changes()[i],
                        old(self).tx_id,
                        e,
                    ),
            },
    {
        let ghost m = self.chains();
        let ghost cs = self.changes();
        let ghost table0 = *self.table;
        let ghost pager0 = *self.pager;
        let ghost tx = self.tx_id;
        let ghost lsn = self.snapshot_lsn;
        let mut queue: Vec<PendingChange> = Vec::new();
        core::mem::swap(&mut queue, &mut self.pending_changes);
        let n: usize = queue.len();
        let mut i: usize = 0;
        proof {
            assert(cs.take(0) =~= Seq::empty());
            assert(changes_of(queue@) =~= cs.skip(0));
        }
        while i < n
            invariant
                i <= n == cs.len(),
                changes_of(queue@) == cs.skip(i as int),
                queue@.len() == n - i,
                m == old(self).chains(),
                cs == old(self).changes(),
                table0 == *old(self).table,
                pager0 == *old(self).pager,
                tx == old(self).tx_id,
                lsn == old(self).snapshot_lsn,
                self.pending_changes@.len() == 0,
                *final(self.table) == *final(old(self).table),
                *final(self.pager) == *final(old(self).pager),
                self.tx_id == tx,
                self.snapshot_lsn == lsn,
                self.wf(),
                self.pager.slots@.len() >= pager0.slots@.len(),
                self.table.same_identity(&table0),
                self.chains() == with_changes(m, cs.take(i as int), tx),
                self.table.row_count as int == rows_after(
                    m,
                    table0.row_count as int,
                    cs.take(i as int),
                    tx,
                ),
                self.table.row_count + (n - i) <= u64::MAX,
                kept_outside(table0, pager0, *self.table, *self.pager),
            decreases n - i,
        {
            let ghost table1 = *self.table;
            let ghost pager1 = *self.pager;
            let ghost m1 = self.chains();
            proof {
                assert(cs.skip(i as int)[0] == cs[i as int]);
                assert(queue@[0].change() == cs[i as int]);
            }
            let ghost queue0 = queue@;
            let change = queue.remove(0);
            let ghost c = change.change();
            match self.apply_change(change) {
                Ok(()) => {},
                Err(e) => {
                    proof {
                        assert(is_refused(
                            table1,
                            pager1,
                            *self.table,
                            *self.pager,
                            lsn,
                            cs[i as int],
                            tx,
                            e,
                        ));
                    }
                    return Err(e);
                },
            }
            proof {
                assert forall|j: int| 0 <= j < queue@.len() implies (#[trigger] queue@[j]).change()
                    == cs[i + 1 + j] by {
                    assert(queue@[j] == queue0[j + 1]);
                    assert(changes_of(queue0)[j + 1] == cs.skip(i as int)[j + 1]);
                }
                assert(changes_of(queue@) =~= cs.skip(i + 1));
                assert(cs.take(i + 1).drop_last() =~= cs.take(i as int));
                assert(cs.take(i + 1).last() == c);
                lemma_kept_twice(table0, pager0, table1, pager1, *self.table, *self.pager);
            }
            i += 1;
        }
        proof {
            assert(cs.take(n as int) =~= cs);
        }
        Ok(())
    }
}

proof fn lemma_kept_twice(
    t0: PagedBTree,
    p0: Pager,
    t1: PagedBTree,
    p1: Pager,
    t2: PagedBTree,
    p2: Pager,
)
    requires
        kept_outside(t0, p0, t1, p1),
        kept_outside(t1, p1, t2, p2),
    ensures
        kept_outside(t0, p0, t2, p2),
{
    assert forall|p: u64| #[trigger]
        p0.pages().contains_key(p) && !t0.owns_page(&p0, p) implies {
        &&& p2.pages().contains_key(p)
        &&& p2.pages()[p] == p0.pages()[p]
        &&& !t2.owns_page(&p2, p)
    } by {
        assert(p1.pages().contains_key(p));
    }
}

/// What a batch has come to.
pub struct BatchRun {
    pub changes: Seq<Change>,
    pub applied: int,
    pub deleted: int,
    pub bytes: int,
    pub error: Option<TableError>,
}

/// What a batch comes to against a table. Merges are passed over, every other mutation counts as
/// applied, and a deletion whose key cannot be read ends the batch.
pub open spec fn batch_run(
    t: PagedBTree,
    p: Pager,
    lsn: LogSequenceNumber,
    ms: Seq<Mutation>,
) -> BatchRun
    decreases ms.len(),
{
    if ms.len() == 0 {
        BatchRun { changes: Seq::empty(), applied: 0, deleted: 0, bytes: 0, error: None }
    } else {
        let b = batch_run(t, p, lsn, ms.drop_last());
        if b.error is Some {
            b
        } else {
            match ms.last() {
                Mutation::Put { key, value } => BatchRun {
                    changes: b.changes.push((key@, Some(value@))),
                    applied: b.applied + 1,
                    bytes: b.bytes + key@.len() + value@.len(),
                    ..b
                },
                Mutation::Delete { key } => match resolved_read(
                    p.pages(),
                    p.slots@.len(),
                    t.find(&p, key@),
                    lsn,
                ) {
                    Ok(Some(_)) => BatchRun {
                        changes: b.changes.push((key@, None)),
                        applied: b.applied + 1,
                        deleted: b.deleted + 1,
                        ..b
                    },
                    Ok(None) => BatchRun { applied: b.applied + 1, ..b },
                    Err(e) => BatchRun { error: Some(e), ..b },
                },
                Mutation::RangeDelete { bounds } => BatchRun {
                    changes: b.changes + deletions_of(scan_hits(t, p, bounds, lsn)),
                    applied: b.applied + 1,
                    deleted: b.deleted + scan_hits(t, p, bounds, lsn).len(),
                    ..b
                },
                Mutation::Merge { .. } => b,
            }
        }
    }
}

/// A batch notes what its parts note, one after the other, and its report adds up theirs, as long
/// as the first part can be read; else the batch ends there.
pub proof fn law_batch_in_parts(
    t: PagedBTree,
    p: Pager,
    lsn: LogSequenceNumber,
    a: Seq<Mutation>,
    b: Seq<Mutation>,
)
    ensures
        ({
            let (x, y) = (batch_run(t, p, lsn, a), batch_run(t, p, lsn, b));
            let all = batch_run(t, p, lsn, a + b);
            if x.error is Some {
                all == x
            } else {
                &&& all.changes == x.changes + y.changes
                &&& all.applied == x.applied + y.applied
                &&& all.deleted == x.deleted + y.deleted
                &&& all.bytes == x.bytes + y.bytes
                &&& all.error == y.error
            }
        }),
    decreases b.len(),
{
    let (x, y) = (batch_run(t, p, lsn, a), batch_run(t, p, lsn, b));
    if b.len() == 0 {
        assert(a + b =~= a);
        assert(x.changes + y.changes =~= x.changes);
    } else {
        law_batch_in_parts(t, p, lsn, a, b.drop_last());
        assert((a + b).drop_last() =~= a + b.drop_last());
        assert((a + b).last() == b.last());
        if x.error is None {
            assert(batch_run(t, p, lsn, a + b).changes =~= x.changes + y.changes);
        }
    }
}

proof fn lemma_batch_run_mono(
    t: PagedBTree,
    p: Pager,
    lsn: LogSequenceNumber,
    ms: Seq<Mutation>,
    n: int,
)
    requires
        0 <= n <= ms.len(),
    ensures
        0 <= batch_run(t, p, lsn, ms.take(n)).applied <= n,
        0 <= batch_run(t, p, lsn, ms.take(n)).deleted <= batch_run(t, p, lsn, ms).deleted,
        0 <= batch_run(t, p, lsn, ms.take(n)).bytes <= batch_run(t, p, lsn, ms).bytes,
        batch_run(t, p, lsn, ms.take(n)).error is Some ==> batch_run(t, p, lsn, ms) == batch_run(
            t,
            p,
            lsn,
            ms.take(n),
        ),
    decreases ms.len(),
{
    if n < ms.len() {
        assert(ms.drop_last().take(n) =~= ms.take(n));
        lemma_batch_run_mono(t, p, lsn, ms.drop_last(), n);
    } else {
        assert(ms.take(n) =~= ms);
        if n > 0 {
            lemma_batch_run_mono(t, p, lsn, ms.drop_last(), n - 1);
            assert(ms.drop_last().take(n - 1) =~= ms.drop_last());
        }
    }
}

impl<'a> PagedBTreeWriter<'a> {
    /// Notes the changes of a batch, up to a deletion whose key cannot be read.
    #[verifier::rlimit(40)]
    pub fn apply_batch(&mut self, batch: WriteBatch) -> (r: TableResult<BatchReport>)
        requires
            old(self).wf(),
            forall|i: int|
                0 <= i < batch.mutations@.len() ==> (#[trigger] batch.mutations@[i] matches
                    Mutation::Put { key, value } ==> key@.len() + value@.len() + 16
                    <= usize::MAX),
            forall|i: int|
                0 <= i < batch.mutations@.len() ==> (#[trigger] batch.mutations@[i] matches
                    Mutation::RangeDelete { bounds } ==> old(self).scan_keys(bounds).len()
                    <= u64::MAX),
            batch_run(
                *old(self).table,
                *old(self).pager,
                old(self).snapshot_lsn,
                batch.mutations@,
            ).bytes <= u64::MAX,
            batch_run(
                *old(self).table,
                *old(self).pager,
                old(self).snapshot_lsn,
                batch.mutations@,
            ).deleted <= u64::MAX,
        ensures
            *final(self).table == *old(self).table,
            *final(final(self).table) == *final(old(self).table),
            *final(self).pager == *old(self).pager,
            *final(final(self).pager) == *final(old(self).pager),
            final(self).tx_id == old(self).tx_id,
            final(self).snapshot_lsn == old(self).snapshot_lsn,
            ({
                let run = batch_run(
                    *old(self).table,
                    *old(self).pager,
                    old(self).snapshot_lsn,
                    batch.mutations@,
                );
                &&& final(self).changes() == old(self).changes() + run.changes
                &&& r == (match run.error {
                    Some(e) => Err::<BatchReport, TableError>(e),
                    None => Ok::<BatchReport, TableError>(
                        BatchReport {
                            attempted: batch.mutations@.len() as u64,
                            applied: run.applied as u64,
                            deleted: run.deleted as u64,
                            bytes_written: run.bytes as u64,
                        },
                    ),
                })
            }),
    {
        let ghost t = *self.table;
        let ghost p = *self.pager;
        let ghost lsn = self.snapshot_lsn;
        let ghost ms = batch.mutations@;
        let n: usize = batch.mutations.len();
        let mut mutations = batch.mutations;
        let mut report = BatchReport {
            attempted: n as u64,
            applied: 0,
            deleted: 0,
            bytes_written: 0,
        };
        let mut i: usize = 0;
        proof {
            assert(ms.take(0) =~= Seq::empty());
            assert(ms.skip(0) =~= ms);
            assert(self.changes() =~= old(self).changes() + batch_run(
                t,
                p,
                lsn,
                ms.take(0),
            ).changes);
        }
        while i < n
            invariant
                n == ms.len(),
                ms == batch.mutations@,
                mutations@ == ms.skip(i as int),
                i <= n,
                t == *old(self).table,
                p == *old(self).pager,
                lsn == old(self).snapshot_lsn,
                self.wf(),
                forall|k: int|
                    0 <= k < ms.len() ==> (#[trigger] ms[k] matches Mutation::Put { key, value }
                        ==> key@.len() + value@.len() + 16 <= usize::MAX),
                forall|k: int|
                    0 <= k < ms.len() ==> (#[trigger] ms[k] matches Mutation::RangeDelete { bounds }
                        ==> scan_hits(t, p, bounds, lsn).len() <= u64::MAX),
                batch_run(t, p, lsn, ms).bytes <= u64::MAX,
                batch_run(t, p, lsn, ms).deleted <= u64::MAX,
                batch_run(t, p, lsn, ms.take(i as int)).error is None,
                self.changes() == old(self).changes() + batch_run(
                    t,
                    p,
                    lsn,
                    ms.take(i as int),
                ).changes,
                *self.table == t,
                *final(self.table) == *final(old(self).table),
                *self.pager == p,
                *final(self.pager) == *final(old(self).pager),
                self.tx_id == old(self).tx_id,
                self.snapshot_lsn == lsn,
                report.attempted == n,
                report.applied == batch_run(t, p, lsn, ms.take(i as int)).applied,
                report.deleted == batch_run(t, p, lsn, ms.take(i as int)).deleted,
                report.bytes_written == batch_run(t, p, lsn, ms.take(i as int)).bytes,
            decreases n - i,
        {
            let ghost before = self.changes();
            let ghost b = batch_run(t, p, lsn, ms.take(i as int));
            proof {
                assert(ms.take(i + 1).drop_last() =~= ms.take(i as int));
                assert(ms.take(i + 1).last() == ms[i as int]);
                lemma_batch_run_mono(t, p, lsn, ms, i as int);
                lemma_batch_run_mono(t, p, lsn, ms, i + 1);
                assert(ms.skip(i as int)[0] == ms[i as int]);
                assert(ms.skip(i as int).remove(0) =~= ms.skip(i + 1));
            }
            let mutation = mutations.remove(0);
            match mutation {
                Mutation::Put { key, value } => {
                    let _ = self.put(key.as_slice(), value.as_slice());
                    report.applied = report.applied + 1;
                    report.bytes_written = report.bytes_written + key.len() as u64
                        + value.len() as u64;
                    proof {
                        assert(self.changes() =~= old(self).changes() + b.changes.push(
                            (key@, Some(value@)),
                        ));
                    }
                },
                Mutation::Delete { key } => {
                    match self.delete(key.as_slice()) {
                        Ok(true) => {
                            report.deleted = report.deleted + 1;
                            proof {
                                assert(self.changes() =~= old(self).changes() + b.changes.push(
                                    (key@, None),
                                ));
                            }
                        },
                        Ok(false) => {},
                        Err(e) => {
                            return Err(e);
                        },
                    }
                    report.applied = report.applied + 1;
                },
                Mutation::RangeDelete { bounds } => {
                    if let Ok(deleted) = self.range_delete(bounds) {
                        report.deleted = report.deleted + deleted;
                    }
                    report.applied = report.applied + 1;
                    proof {
                        assert(self.changes() =~= old(self).changes() + (b.changes + deletions_of(
                            scan_hits(t, p, bounds, lsn),
                        )));
                    }
                },
                Mutation::Merge { .. } => {},
            }
            i += 1;
        }
        proof {
            assert(ms.take(n as int) =~= ms);
            lemma_batch_run_mono(t, p, lsn, ms, n as int);
        }
        Ok(report)
    }
}

/// Committing what a transaction flushed makes the last value that it put under a key what every
/// reader at or after the commit sees of it.
pub proof fn law_flush_and_commit_is_read(
    m: Chains,
    cs: Seq<Change>,
    tx: TransactionId,
    i: int,
    at: LogSequenceNumber,
    lsn: LogSequenceNumber,
)
    requires
        0 <= i < cs.len(),
        cs[i].1 is Some,
        forall|j: int| i < j < cs.len() ==> (#[trigger] cs[j]).0 != cs[i].0,
        at.0 <= lsn.0,
    ensures
        raw_read(
            with_changes(m, cs, tx).map_values(|vs: Seq<Version>| commit_of(vs, tx, at)),
            cs[i].0,
            lsn,
        ) == cs[i].1,
{
    crate::mvcc::law_last_change_wins(m, cs, tx, i);
    let after = with_changes(m, cs, tx).map_values(|vs: Seq<Version>| commit_of(vs, tx, at));
    assert(after[cs[i].0][0] == crate::txn::committed(pending(cs[i].1->Some_0, tx), at));
}

/// Once a flush is committed, every reader from the commit on gets of a key what the last bytes
/// that were put under it stood for when they were put: the bytes themselves, or what they refer
/// to.
pub proof fn law_flushed_value_is_got(
    table: PagedBTree,
    pager: Pager,
    flushed: PagedBTree,
    pager2: Pager,
    committed: PagedBTree,
    pager3: Pager,
    cs: Seq<Change>,
    tx: TransactionId,
    i: int,
    at: LogSequenceNumber,
    lsn: LogSequenceNumber,
)
    requires
        0 <= i < cs.len(),
        cs[i].1 is Some,
        forall|j: int| i < j < cs.len() ==> (#[trigger] cs[j]).0 != cs[i].0,
        at.0 <= lsn.0,
        is_outside(table, pager, cs[i].1->Some_0),
        kept_outside(table, pager, flushed, pager2),
        pager.slots@.len() <= pager2.slots@.len(),
        flushed.chains(&pager2) == with_changes(table.chains(&pager), cs, tx),
        kept_outside(flushed, pager2, committed, pager3),
        pager2.slots@.len() <= pager3.slots@.len(),
        committed.chains(&pager3) == flushed.chains(&pager2).map_values(
            |vs: Seq<Version>| commit_of(vs, tx, at),
        ),
    ensures
        resolved_read(pager3.pages(), pager3.slots@.len(), committed.find(&pager3, cs[i].0), lsn)
            == resolve(pager.pages(), pager.slots@.len(), cs[i].1->Some_0),
{
    let key = cs[i].0;
    let stored = cs[i].1->Some_0;
    law_flush_and_commit_is_read(table.chains(&pager), cs, tx, i, at, lsn);
    lemma_outside_kept(table, pager, flushed, pager2, stored);
    lemma_outside_kept(flushed, pager2, committed, pager3, stored);
    assert(raw_read(committed.chains(&pager3), key, lsn) == Some(stored));
    assert(committed.chains(&pager3).contains_key(key));
}

/// Bytes that do not have the form of a reference stand for themselves, wherever they are put;
/// none at all stand for a deletion.
pub proof fn law_plain_value_stands_for_itself(table: PagedBTree, pager: Pager, value: Seq<u8>)
    requires
        !(ValueRef::parse(value) matches Some(r) && !(r is Inline)),
    ensures
        is_outside(table, pager, value),
        resolve(pager.pages(), pager.slots@.len(), value) == Ok::<Option<Seq<u8>>, TableError>(
            if value.len() == 0 {
                None
            } else {
                Some(value)
            },
        ),
{
}

/// What a streamed put notes outside the tree stands for the value that was streamed, as long as
/// the page numbers of the store fit a reference.
pub proof fn law_streamed_value_stands_for_its_stream(
    table: PagedBTree,
    before: Pager,
    pager: Pager,
    value: Seq<u8>,
    stored: Seq<u8>,
)
    requires
        table.wf(&before),
        pager.wf(),
        pager.size == before.size,
        is_streamed(before.pages(), pager.pages(), pager.slots@.len(), value, stored),
        value.len() > 0,
        pager.slots@.len() <= u32::MAX,
    ensures
        is_outside(table, pager, stored),
        resolve(pager.pages(), pager.slots@.len(), stored) == Ok::<Option<Seq<u8>>, TableError>(
            Some(value),
        ),
{
    let fuel = pager.slots@.len();
    let (ids, chunks) = choose|ids: Seq<PageId>, chunks: Seq<Seq<u8>>| #[trigger]
        pages_added(before.pages(), pager.pages(), ids, chunks) && joined(chunks) == value && 0
            < ids.len() <= fuel && stored == reference_to(ids, value.len() as int).bytes() && (
        ids[0].0 <= u32::MAX ==> resolve(pager.pages(), fuel, stored) == Ok::<
            Option<Seq<u8>>,
            TableError,
        >(Some(value)));
    assert(pager.pages().contains_key(ids[0].0));
    lemma_tree_survives(table, before, pager);
    assert forall|j: int| 0 <= j < ids.len() implies !table.owns_page(
        &pager,
        (#[trigger] ids[j]).0,
    ) by {
        assert(!before.pages().contains_key(ids[j].0));
        if table.owns_page(&before, ids[j].0) {
            crate::btree::tree::lemma_owned_is_node(
                nodes(before.pages()),
                table.root_page_id.0,
                table.height@,
                None,
                None,
                0,
                ids[j].0,
            );
        }
    }
    reference_to(ids, value.len() as int).law_round_trip();
    if ids.len() > 1 {
        lemma_chunks_outside(table, pager, ids, chunks, 0, fuel);
    }
}

proof fn lemma_chunks_outside(
    table: PagedBTree,
    pager: Pager,
    ids: Seq<PageId>,
    chunks: Seq<Seq<u8>>,
    i: int,
    fuel: nat,
)
    requires
        crate::btree::streaming::holds_chunks(pager.pages(), ids, chunks),
        forall|j: int| 0 <= j < ids.len() ==> !table.owns_page(&pager, (#[trigger] ids[j]).0),
        0 <= i < ids.len(),
        fuel >= ids.len() - i,
    ensures
        chain_outside(pager.pages(), table, pager, ids[i].0, fuel),
    decreases ids.len() - i,
{
    let next = crate::btree::streaming::next_id(ids, i);
    crate::overflow::lemma_overflow_round_trip(next, chunks[i]);
    assert(pager.pages().contains_key(ids[i].0));
    assert(!table.owns_page(&pager, ids[i].0));
    if i + 1 < ids.len() {
        lemma_chunks_outside(table, pager, ids, chunks, i + 1, (fuel - 1) as nat);
    }
    assert(chain_outside(pager.pages(), table, pager, next, (fuel - 1) as nat));
}

} // verus!
