//! Reading a paged B-tree: point lookups, streams and ordered scans.
use crate::btree::leaves::{leaves, lemma_leaves, linked};
use crate::btree::node::{BTreeNode, Node};
use crate::btree::paged::{
    index_in, lemma_route, nodes, read_view, resolved_read, resolve, resolve_value, route,
    PagedBTree,
};
use crate::btree::tree::{first_leaf, high, kid_after, low, owns, tree, Nodes};
use crate::bytes::{
    bytes_equal, compare_bytes, copy_bytes, lemma_lex_asymmetric, lemma_lex_total, lex_le, lex_lt,
    ByteOrder,
};
use crate::overflow::ValueRef;
use crate::pager::{PageId, Pager};
use crate::snap::Snapshot;
use crate::stream::{SliceValueStream, ValueStream};
use crate::table::{Corruption, TableError, TableResult};
use crate::txn::{visible_at, Version};
use crate::types::{Bound, LogSequenceNumber, ScanBounds, ValueBuf};
use vstd::prelude::*;

verus! {

/// Reads a table at one point of the log.
pub struct PagedBTreeReader<'a> {
    pub table: &'a PagedBTree,
    pub pager: &'a Pager,
    pub snapshot_lsn: LogSequenceNumber,
}

/// A value that is fetched from the place that a reference names when it is first read.
pub struct ReferencedStream<'a> {
    pub pager: &'a Pager,
    pub reference: Vec<u8>,
    pub length: u64,
    pub buffer: Option<Vec<u8>>,
    pub position: usize,
}

/// The bytes of a value that is read piece by piece.
pub enum StoredValueStream<'a> {
    Slice(SliceValueStream),
    Referenced(ReferencedStream<'a>),
}

impl<'a> ReferencedStream<'a> {
    /// What the reference names, where it can be fetched.
    pub open spec fn fetched(&self) -> Seq<u8> {
        match self.buffer {
            Some(b) => b@,
            None => match resolve(self.pager.pages(), self.pager.slots@.len(), self.reference@) {
                Ok(Some(v)) => v,
                _ => Seq::empty(),
            },
        }
    }

    /// Fetches the value if that has not been done.
    fn load_data(&mut self) -> (r: TableResult<()>)
        requires
            old(self).pager.wf(),
        ensures
            final(self).pager == old(self).pager,
            final(self).reference == old(self).reference,
            final(self).length == old(self).length,
            final(self).position == old(self).position,
            final(self).fetched() == old(self).fetched(),
            r is Ok ==> final(self).buffer is Some,
            r is Err ==> *final(self) == *old(self),
            r is Err <==> old(self).buffer is None && resolve(
                old(self).pager.pages(),
                old(self).pager.slots@.len(),
                old(self).reference@,
            ) is Err,
    {
        if self.buffer.is_some() {
            return Ok(());
        }
        match resolve_value(self.pager, self.reference.as_slice()) {
            Ok(Some(v)) => {
                self.buffer = Some(v.0);
                Ok(())
            },
            Ok(None) => {
                let empty: Vec<u8> = Vec::new();
                assert(empty@ =~= Seq::<u8>::empty());
                self.buffer = Some(empty);
                Ok(())
            },
            Err(e) => Err(e),
        }
    }
}

/// What is left of `data` from `position` on.
pub open spec fn rest_of(data: Seq<u8>, position: int) -> Seq<u8> {
    if position <= data.len() {
        data.skip(position)
    } else {
        Seq::empty()
    }
}

impl<'a> StoredValueStream<'a> {
    /// The store that a reference is fetched from is in order.
    pub open spec fn wf(&self) -> bool {
        match self {
            StoredValueStream::Slice(_) => true,
            StoredValueStream::Referenced(s) => s.pager.wf(),
        }
    }

    /// What is still to be read.
    pub open spec fn rest(&self) -> Seq<u8> {
        match self {
            StoredValueStream::Slice(s) => s.remaining(),
            StoredValueStream::Referenced(s) => rest_of(s.fetched(), s.position as int),
        }
    }

    /// The value has not been fetched and cannot be.
    pub open spec fn is_unreadable(&self) -> bool {
        match self {
            StoredValueStream::Slice(_) => false,
            StoredValueStream::Referenced(s) => s.buffer is None && resolve(
                s.pager.pages(),
                s.pager.slots@.len(),
                s.reference@,
            ) is Err,
        }
    }

    /// Fills the front of `buf` with the next bytes and returns how many there were.
    pub fn read(&mut self, buf: &mut [u8]) -> (r: TableResult<usize>)
        requires
            old(self).wf(),
        ensures
            final(self).wf(),
            final(buf)@.len() == old(buf)@.len(),
            r matches Ok(n) ==> {
                &&& n as int == (if old(self).rest().len() < old(buf)@.len() {
                    old(self).rest().len() as int
                } else {
                    old(buf)@.len() as int
                })
                &&& final(buf)@.take(n as int) + final(self).rest() == old(self).rest()
            },
            r is Err ==> *final(self) == *old(self),
            r is Err <==> old(self).is_unreadable(),
    {
        match self {
            StoredValueStream::Slice(s) => s.read(buf),
            StoredValueStream::Referenced(s) => {
                match s.load_data() {
                    Ok(()) => {},
                    Err(e) => {
                        return Err(e);
                    },
                }
                let ghost all = rest_of(s.fetched(), s.position as int);
                let ghost size = buf@.len();
                let start: usize = s.position;
                let n: usize = match &s.buffer {
                    Some(data) => {
                        if start >= data.len() {
                            assert(buf@.take(0) + all =~= all);
                            0
                        } else {
                            let left: usize = data.len() - start;
                            let n: usize = if left < buf.len() {
                                left
                            } else {
                                buf.len()
                            };
                            let mut i: usize = 0;
                            while i < n
                                invariant
                                    i <= n <= left,
                                    start + left <= usize::MAX,
                                    n <= buf@.len() == size,
                                    left == data@.len() - start,
                                    forall|j: int|
                                        0 <= j < i ==> #[trigger] buf@[j] == data@[start + j],
                                decreases n - i,
                            {
                                buf[i] = data[start + i];
                                i += 1;
                            }
                            n
                        }
                    },
                    None => 0,
                };
                s.position = start + n;
                proof {
                    assert(buf@.take(n as int) + rest_of(s.fetched(), s.position as int) =~= all);
                }
                Ok(n)
            },
        }
    }

    /// How much there is to read, as the value's reference says.
    pub fn size_hint(&self) -> (r: Option<u64>)
        ensures
            r == Some(
                match self {
                    StoredValueStream::Slice(s) => s.data@.len() as u64,
                    StoredValueStream::Referenced(s) => s.length,
                },
            ),
    {
        match self {
            StoredValueStream::Slice(s) => Some(s.data.len() as u64),
            StoredValueStream::Referenced(s) => Some(s.length),
        }
    }
}

/// What a stream for a value stands for: a value that starts like a reference is taken for one.
pub open spec fn stream_of(value: Seq<u8>) -> Result<Option<ValueRef>, TableError> {
    if value.len() >= 1 && (value[0] == 1 || value[0] == 2) {
        match ValueRef::parse(value) {
            Some(r) => Ok(Some(r)),
            None => Err(TableError::Corruption(Corruption::InvalidValueRef)),
        }
    } else {
        Ok(None)
    }
}

impl<'a> PagedBTreeReader<'a> {
    /// The table is a tree of the store.
    pub open spec fn wf(&self) -> bool {
        self.table.wf(self.pager)
    }

    /// The value of `key` that a reader at `snapshot_lsn` gets.
    pub fn get(&self, key: &[u8], snapshot_lsn: LogSequenceNumber) -> (r: TableResult<
        Option<ValueBuf>,
    >)
        requires
            self.wf(),
        ensures
            read_view(r) == resolved_read(
                self.pager.pages(),
                self.pager.slots@.len(),
                self.table.find(self.pager, key@),
                snapshot_lsn,
            ),
    {
        self.table.get_internal(self.pager, key, snapshot_lsn)
    }

    /// The value of `key` that a reader at `snapshot_lsn` gets, as a stream. A value that starts
    /// like a reference is taken for one.
    pub fn get_stream(&self, key: &[u8], snapshot_lsn: LogSequenceNumber) -> (r: TableResult<
        Option<StoredValueStream<'a>>,
    >)
        requires
            self.wf(),
        ensures
            ({
                let value = resolved_read(
                    self.pager.pages(),
                    self.pager.slots@.len(),
                    self.table.find(self.pager, key@),
                    snapshot_lsn,
                );
                match r {
                    Err(e) => match value {
                        Err(f) => e == f,
                        Ok(Some(v)) => stream_of(v) == Err::<Option<ValueRef>, TableError>(e),
                        Ok(None) => false,
                    },
                    Ok(None) => value == Ok::<Option<Seq<u8>>, TableError>(None),
                    Ok(Some(s)) => {
                        &&& value is Ok && value->Ok_0 is Some
                        &&& s.wf()
                        &&& match stream_of(value->Ok_0->Some_0) {
                            Ok(Some(_)) => s matches StoredValueStream::Referenced(t) && t.reference@
                                == value->Ok_0->Some_0 && t.buffer is None && t.position == 0
                                && t.pager == self.pager,
                            Ok(None) => s is Slice && s.rest() == value->Ok_0->Some_0,
                            Err(_) => false,
                        }
                    },
                }
            }),
    {
        let value = match self.table.get_internal(self.pager, key, snapshot_lsn) {
            Ok(Some(v)) => v.0,
            Ok(None) => {
                return Ok(None);
            },
            Err(e) => {
                return Err(e);
            },
        };
        if value.len() >= 1 && (value[0] == 1 || value[0] == 2) {
            let length: u64 = match ValueRef::decode(value.as_slice()) {
                Ok(ValueRef::SinglePage { page_id: _, offset: _, length }) => length as u64,
                Ok(ValueRef::OverflowChain { first_page_id: _, total_length, page_count: _ }) => {
                    total_length
                },
                Ok(ValueRef::Inline) => 0,
                Err(e) => {
                    return Err(e);
                },
            };
            Ok(
                Some(
                    StoredValueStream::Referenced(
                        ReferencedStream {
                            pager: self.pager,
                            reference: value,
                            length,
                            buffer: None,
                            position: 0,
                        },
                    ),
                ),
            )
        } else {
            Ok(Some(StoredValueStream::Slice(SliceValueStream::new(value))))
        }
    }

    /// A cursor over the keys within the bounds that a reader at `snapshot_lsn` sees.
    pub fn scan(&self, bounds: ScanBounds, snapshot_lsn: LogSequenceNumber) -> (r: TableResult<
        PagedBTreeCursor<'a>,
    >)
        requires
            self.wf(),
        ensures
            r is Ok,
            r->Ok_0.is_new(self.table, self.pager, bounds, snapshot_lsn),
    {
        Ok(PagedBTreeCursor::new(self.table, self.pager, bounds, snapshot_lsn))
    }

    /// The point of the log that the reader was made for.
    pub fn snapshot_lsn(&self) -> (r: LogSequenceNumber)
        ensures
            r == self.snapshot_lsn,
    {
        self.snapshot_lsn
    }

    /// The recorded number of rows.
    pub fn approximate_len(&self) -> (r: TableResult<Option<u64>>)
        ensures
            r == Ok::<Option<u64>, TableError>(Some(self.table.row_count)),
    {
        Ok(Some(self.table.row_count))
    }
}

/// Where a walk over leaves stops.
pub enum ScanStop {
    /// At an entry that the reader sees: a leaf and a position.
    Found(int, int),
    /// At an entry that is out of bounds.
    OutOfBounds(int, int),
    /// Behind the last entry.
    End,
}

/// The value of an entry that a reader at `lsn` sees, deletions left out.
pub open spec fn shown(vs: Seq<Version>, lsn: LogSequenceNumber) -> Option<Seq<u8>> {
    crate::mvcc::unless_tombstone(visible_at(vs, lsn))
}

/// Where a walk forward from a position stops.
pub open spec fn walk(
    n: Nodes,
    ls: Seq<u64>,
    leaf: int,
    pos: int,
    bounds: ScanBounds,
    lsn: LogSequenceNumber,
) -> ScanStop
    decreases ls.len() - leaf, n[ls[leaf]]->Leaf_keys.len() - pos,
{
    if leaf < 0 || leaf >= ls.len() || pos < 0 {
        ScanStop::End
    } else if pos >= n[ls[leaf]]->Leaf_keys.len() {
        walk(n, ls, leaf + 1, 0, bounds, lsn)
    } else if !bounds.admits(n[ls[leaf]]->Leaf_keys[pos]) {
        ScanStop::OutOfBounds(leaf, pos)
    } else if shown(n[ls[leaf]]->chains[pos], lsn) is Some {
        ScanStop::Found(leaf, pos)
    } else {
        walk(n, ls, leaf, pos + 1, bounds, lsn)
    }
}

/// Where a walk back within a leaf stops: at the last entry before `pos` that is within bounds and
/// that the reader sees, if there is one.
pub open spec fn walk_back(
    leaf: Node,
    pos: int,
    bounds: ScanBounds,
    lsn: LogSequenceNumber,
) -> Option<int>
    decreases pos,
{
    if pos <= 0 {
        None
    } else if bounds.admits(leaf->Leaf_keys[pos - 1]) && shown(leaf->chains[pos - 1], lsn) is Some {
        Some(pos - 1)
    } else {
        walk_back(leaf, pos - 1, bounds, lsn)
    }
}

/// The first leaf, where every internal node on the way has a key.
pub open spec fn leftmost(n: Nodes, id: u64, h: nat) -> Option<u64>
    decreases h,
{
    if h == 0 || !(n[id] is Internal) {
        Some(id)
    } else if n[id]->Internal_keys.len() == 0 {
        None
    } else {
        leftmost(n, n[id]->kids[0], (h - 1) as nat)
    }
}

/// The entry at a position of a leaf has that key.
pub open spec fn is_entry(leaf: Node, pos: int, key: Seq<u8>) -> bool {
    0 <= pos < leaf->Leaf_keys.len() && leaf->Leaf_keys[pos] == key
}

/// Where a seek goes: nowhere, to the position of a key, or behind it where the tree holds it.
pub enum SeekTarget {
    Nowhere,
    At(Seq<u8>),
    Behind(Seq<u8>),
}

/// Where a seek for `key` within the bounds goes. A key before the start of a range is taken for
/// the start; one before or at an excluded start goes behind the start.
pub open spec fn seek_target(bounds: ScanBounds, key: Seq<u8>) -> SeekTarget {
    if bounds.admits(key) {
        SeekTarget::At(key)
    } else {
        match bounds {
            ScanBounds::Range { start: Bound::Included(k), end } => if lex_lt(key, k@)
                && bounds.admits(k@) {
                SeekTarget::At(k@)
            } else {
                SeekTarget::Nowhere
            },
            ScanBounds::Range { start: Bound::Excluded(k), end } => if lex_le(key, k@) {
                SeekTarget::Behind(k@)
            } else {
                SeekTarget::Nowhere
            },
            _ => SeekTarget::Nowhere,
        }
    }
}

/// Walks over the keys within bounds that a reader sees.
pub struct PagedBTreeCursor<'a> {
    pub table: &'a PagedBTree,
    pub pager: &'a Pager,
    pub snapshot_lsn: LogSequenceNumber,
    pub bounds: ScanBounds,
    pub current_page_id: PageId,
    pub current_position: usize,
    pub current_key: Option<Vec<u8>>,
    pub current_value: Option<Vec<u8>>,
    pub exhausted: bool,
}

impl<'a> PagedBTreeCursor<'a> {
    /// The nodes of the store.
    pub open spec fn nodes(&self) -> Nodes {
        nodes(self.pager.pages())
    }

    /// The leaves of the tree in order.
    pub open spec fn leaves(&self) -> Seq<u64> {
        leaves(self.nodes(), self.table.root_page_id.0, self.table.height@)
    }

    /// The cursor is at a position of a leaf.
    pub open spec fn is_at(&self, leaf: int, pos: int) -> bool {
        &&& 0 <= leaf < self.leaves().len()
        &&& self.current_page_id.0 == self.leaves()[leaf]
        &&& self.current_position == pos
        &&& pos <= self.nodes()[self.leaves()[leaf]]->Leaf_keys.len()
    }

    /// The cursor shows the entry at a position of a leaf.
    pub open spec fn shows(&self, leaf: int, pos: int) -> bool {
        let node = self.nodes()[self.leaves()[leaf]];
        &&& pos < node->Leaf_keys.len()
        &&& self.current_key is Some
        &&& self.current_key->Some_0@ == node->Leaf_keys[pos]
        &&& self.current_value is Some
        &&& Some(self.current_value->Some_0@) == shown(node->chains[pos], self.snapshot_lsn)
    }

    /// The table is a tree of the store.
    pub open spec fn wf(&self) -> bool {
        self.table.wf(self.pager)
    }

    /// The cursor is at a position of a leaf, before its end unless it is exhausted, and shows
    /// nothing but the entry there.
    pub open spec fn located(&self) -> bool {
        exists|leaf: int|
            #![trigger self.leaves()[leaf]]
            {
                &&& self.is_at(leaf, self.current_position as int)
                &&& !self.exhausted ==> self.current_position < self.nodes()[self.leaves()[leaf]]->Leaf_keys.len()
                &&& !self.exhausted && self.current_key is Some ==> self.shows(
                    leaf,
                    self.current_position as int,
                )
            }
    }

    /// The cursor is exhausted or at a position of a leaf.
    pub open spec fn ready(&self) -> bool {
        self.exhausted || self.located()
    }

    /// A cursor that has stopped is ready.
    pub proof fn lemma_stopped(&self, stop: ScanStop)
        requires
            self.stopped_at(stop),
        ensures
            self.ready(),
    {
        if let ScanStop::Found(leaf, pos) = stop {
            assert(self.is_at(leaf, self.current_position as int));
            assert(self.leaves()[leaf] == self.current_page_id.0);
        }
    }

    /// A cursor that has stopped on the way back is ready.
    pub proof fn lemma_stopped_back(&self, leaf: int, stop: Option<int>)
        requires
            self.stopped_back(leaf, stop),
        ensures
            self.ready(),
    {
        if stop is Some {
            assert(self.is_at(leaf, self.current_position as int));
            assert(self.leaves()[leaf] == self.current_page_id.0);
        }
    }

    /// The cursor differs from `other` in where it is alone.
    pub open spec fn same_scan(&self, other: &Self) -> bool {
        &&& *self.table == *other.table
        &&& *self.pager == *other.pager
        &&& self.snapshot_lsn == other.snapshot_lsn
        &&& self.bounds == other.bounds
    }

    /// The cursor is where a walk stopped.
    pub open spec fn stopped_at(&self, stop: ScanStop) -> bool {
        match stop {
            ScanStop::Found(leaf, pos) => self.is_at(leaf, pos) && self.shows(leaf, pos)
                && !self.exhausted,
            ScanStop::OutOfBounds(leaf, pos) => self.is_at(leaf, pos) && self.exhausted
                && self.current_key is None && self.current_value is None,
            ScanStop::End => self.exhausted && self.is_at(
                self.leaves().len() - 1,
                self.nodes()[self.leaves().last()]->Leaf_keys.len() as int,
            ),
        }
    }

    /// The leaf of `key` and the position of `key` in it.
    pub open spec fn place_of(&self, key: Seq<u8>) -> (int, int) {
        let leaf = route(
            self.nodes(),
            self.table.root_page_id.0,
            self.table.height@,
            key,
        ).last();
        (self.leaves().index_of(leaf), index_in(self.nodes()[leaf], key))
    }

    /// The first position in the leaf of `key` that is behind it.
    pub open spec fn behind(&self, key: Seq<u8>) -> int {
        let (leaf, pos) = self.place_of(key);
        if is_entry(self.nodes()[self.leaves()[leaf]], pos, key) {
            pos + 1
        } else {
            pos
        }
    }

    /// The cursor is where a seek leads.
    pub open spec fn sought(&self, target: SeekTarget) -> bool {
        match target {
            SeekTarget::Nowhere => self.exhausted && self.current_key is None
                && self.current_value is None,
            SeekTarget::At(k) => self.stopped_at(
                walk(
                    self.nodes(),
                    self.leaves(),
                    self.place_of(k).0,
                    self.place_of(k).1,
                    self.bounds,
                    self.snapshot_lsn,
                ),
            ),
            SeekTarget::Behind(k) => self.stopped_at(
                walk(
                    self.nodes(),
                    self.leaves(),
                    self.place_of(k).0,
                    self.behind(k),
                    self.bounds,
                    self.snapshot_lsn,
                ),
            ),
        }
    }

    /// The scan starts at the front of the tree.
    pub open spec fn starts_at_front(&self) -> bool {
        match self.bounds {
            ScanBounds::All => true,
            ScanBounds::Prefix(_) => false,
            ScanBounds::Range { start, end } => start is Unbounded,
        }
    }

    /// The key that a scan from the front starts with a seek for.
    pub open spec fn front_key(&self) -> Seq<u8> {
        match self.bounds {
            ScanBounds::All => Seq::empty(),
            ScanBounds::Prefix(p) => p@,
            ScanBounds::Range { start, end } => match start {
                Bound::Included(k) => k@,
                Bound::Excluded(k) => k@,
                Bound::Unbounded => Seq::empty(),
            },
        }
    }

    /// The front of the tree, where every internal node on the way there has a key.
    pub open spec fn front(&self) -> Option<u64> {
        leftmost(self.nodes(), self.table.root_page_id.0, self.table.height@)
    }

    /// The cursor is where a scan from the front starts.
    pub open spec fn is_first(&self) -> bool {
        if self.starts_at_front() {
            self.stopped_at(
                walk(self.nodes(), self.leaves(), 0, 0, self.bounds, self.snapshot_lsn),
            )
        } else {
            self.sought(seek_target(self.bounds, self.front_key()))
        }
    }

    /// The cursor was made for a scan and stands where it starts, unless there is no way to the
    /// front.
    pub open spec fn is_new(
        &self,
        table: &PagedBTree,
        pager: &Pager,
        bounds: ScanBounds,
        snapshot_lsn: LogSequenceNumber,
    ) -> bool {
        &&& *self.table == *table
        &&& *self.pager == *pager
        &&& self.bounds == bounds
        &&& self.snapshot_lsn == snapshot_lsn
        &&& if self.starts_at_front() && self.front() is None {
            !self.exhausted && self.current_key is None
        } else {
            self.is_first() && self.ready()
        }
    }

    /// A cursor where a scan from the front starts.
    pub fn new(
        table: &'a PagedBTree,
        pager: &'a Pager,
        bounds: ScanBounds,
        snapshot_lsn: LogSequenceNumber,
    ) -> (r: Self)
        requires
            table.wf(pager),
        ensures
            r.is_new(table, pager, bounds, snapshot_lsn),
    {
        let mut cursor = PagedBTreeCursor {
            table,
            pager,
            snapshot_lsn,
            bounds,
            current_page_id: PageId(0),
            current_position: 0,
            current_key: None,
            current_value: None,
            exhausted: false,
        };
        let _ = cursor.first();
        cursor
    }

    /// The first leaf; refused where an internal node on the way has no key.
    fn find_leftmost_leaf(&self) -> (r: TableResult<PageId>)
        requires
            self.wf(),
        ensures
            match r {
                Ok(id) => self.front() == Some(id.0),
                Err(e) => self.front() is None && e is Corruption && e->Corruption_0
                    is EmptyInternalNode,
            },
    {
        self.leftmost_from(
            self.table.root_page_id,
            Ghost(self.table.height@),
            Ghost(None),
            Ghost(None),
            Ghost(0),
        )
    }

    fn leftmost_from(
        &self,
        current: PageId,
        Ghost(h): Ghost<nat>,
        Ghost(lo): Ghost<Option<Seq<u8>>>,
        Ghost(hi): Ghost<Option<Seq<u8>>>,
        Ghost(after): Ghost<u64>,
    ) -> (r: TableResult<PageId>)
        requires
            self.pager.wf(),
            tree(self.nodes(), current.0, h, lo, hi, after),
        ensures
            match r {
                Ok(id) => leftmost(self.nodes(), current.0, h) == Some(id.0),
                Err(e) => leftmost(self.nodes(), current.0, h) is None && e is Corruption
                    && e->Corruption_0 is EmptyInternalNode,
            },
        decreases h,
    {
        let ghost n = self.nodes();
        match self.table.read_node(self.pager, current) {
            Ok(BTreeNode::Internal { version: _, entries, rightmost_child: _ }) => {
                if entries.len() == 0 {
                    return Err(TableError::Corruption(Corruption::EmptyInternalNode(current)));
                }
                let kid = entries[0].child_page_id;
                let ghost keys = n[current.0]->Internal_keys;
                let ghost kids = n[current.0]->kids;
                assert(kids[0] == kid.0);
                self.leftmost_from(
                    kid,
                    Ghost((h - 1) as nat),
                    Ghost(low(keys, lo, 0)),
                    Ghost(high(keys, hi, 0)),
                    Ghost(kid_after(n, kids, (h - 1) as nat, after, 0)),
                )
            },
            Ok(BTreeNode::Leaf { .. }) => Ok(current),
            Err(e) => Err(e),
        }
    }

    /// The last leaf.
    fn find_rightmost_leaf(&self) -> (r: TableResult<PageId>)
        requires
            self.wf(),
        ensures
            r is Ok,
            r->Ok_0.0 == self.leaves().last(),
    {
        self.rightmost_from(
            self.table.root_page_id,
            Ghost(self.table.height@),
            Ghost(None),
            Ghost(None),
            Ghost(0),
        )
    }

    fn rightmost_from(
        &self,
        current: PageId,
        Ghost(h): Ghost<nat>,
        Ghost(lo): Ghost<Option<Seq<u8>>>,
        Ghost(hi): Ghost<Option<Seq<u8>>>,
        Ghost(after): Ghost<u64>,
    ) -> (r: TableResult<PageId>)
        requires
            self.pager.wf(),
            tree(self.nodes(), current.0, h, lo, hi, after),
        ensures
            r is Ok,
            r->Ok_0.0 == leaves(self.nodes(), current.0, h).last(),
        decreases h,
    {
        let ghost n = self.nodes();
        match self.table.read_node(self.pager, current) {
            Ok(BTreeNode::Internal { version: _, entries, rightmost_child }) => {
                let ghost keys = n[current.0]->Internal_keys;
                let ghost kids = n[current.0]->kids;
                let ghost last = kids.len() - 1;
                let ghost g = (h - 1) as nat;
                assert(kids[last] == rightmost_child.0);
                proof {
                    assert(tree(
                        n,
                        kids[last],
                        g,
                        low(keys, lo, last),
                        high(keys, hi, last),
                        kid_after(n, kids, g, after, last),
                    ));
                    lemma_leaves(
                        n,
                        kids[last],
                        g,
                        low(keys, lo, last),
                        high(keys, hi, last),
                        kid_after(n, kids, g, after, last),
                    );
                    let front = crate::btree::leaves::leaves_upto(n, kids, g, last);
                    let tail = leaves(n, kids[last], g);
                    assert(leaves(n, current.0, h) == front + tail);
                    assert((front + tail).last() == tail.last());
                }
                self.rightmost_from(
                    rightmost_child,
                    Ghost(g),
                    Ghost(low(keys, lo, last)),
                    Ghost(high(keys, hi, last)),
                    Ghost(kid_after(n, kids, g, after, last)),
                )
            },
            Ok(BTreeNode::Leaf { .. }) => Ok(current),
            Err(e) => Err(e),
        }
    }

    /// Walks forward from the current position.
    fn advance_to_next_visible(&mut self, Ghost(leaf): Ghost<int>) -> (r: TableResult<()>)
        requires
            old(self).wf(),
            old(self).is_at(leaf, old(self).current_position as int),
            !old(self).exhausted,
        ensures
            r is Ok,
            final(self).wf(),
            final(self).ready(),
            final(self).same_scan(old(self)),
            final(self).stopped_at(
                walk(
                    old(self).nodes(),
                    old(self).leaves(),
                    leaf,
                    old(self).current_position as int,
                    old(self).bounds,
                    old(self).snapshot_lsn,
                ),
            ),
    {
        let ghost n = self.nodes();
        let ghost ls = self.leaves();
        let ghost goal = walk(
            n,
            ls,
            leaf,
            self.current_position as int,
            self.bounds,
            self.snapshot_lsn,
        );
        let ghost mut at = leaf;
        proof {
            lemma_leaves(n, self.table.root_page_id.0, self.table.height@, None, None, 0);
        }
        loop
            invariant
                self.wf(),
                self.same_scan(old(self)),
                n == self.nodes(),
                ls == self.leaves(),
                linked(n, ls, 0),
                self.is_at(at, self.current_position as int),
                !self.exhausted,
                goal == walk(
                    n,
                    ls,
                    at,
                    self.current_position as int,
                    self.bounds,
                    self.snapshot_lsn,
                ),
                goal == walk(
                    old(self).nodes(),
                    old(self).leaves(),
                    leaf,
                    old(self).current_position as int,
                    old(self).bounds,
                    old(self).snapshot_lsn,
                ),
            decreases ls.len() - at, n[ls[at]]->Leaf_keys.len() - self.current_position,
        {
            assert(n.contains_key(ls[at]));
            let node = match self.table.read_node(self.pager, self.current_page_id) {
                Ok(x) => x,
                Err(e) => {
                    return Err(e);
                },
            };
            match node {
                BTreeNode::Leaf { version: _, entries, next_leaf } => {
                    if self.current_position < entries.len() {
                        let entry = &entries[self.current_position];
                        let ghost p = self.current_position as int;
                        assert(n[ls[at]]->Leaf_keys[p] == entry.key@);
                        assert(n[ls[at]]->chains[p] == entry.chain@);
                        if !self.bounds.contains(entry.key.as_slice()) {
                            self.exhausted = true;
                            self.current_key = None;
                            self.current_value = None;
                            return Ok(());
                        }
                        let snapshot = Snapshot::at(self.snapshot_lsn);
                        match entry.chain.find_visible_version(&snapshot) {
                            Some(value) => {
                                if value.len() > 0 {
                                    self.current_key = Some(copy_bytes(entry.key.as_slice()));
                                    self.current_value = Some(copy_bytes(value));
                                    proof {
                                        self.lemma_stopped(goal);
                                    }
                                    return Ok(());
                                }
                            },
                            None => {},
                        }
                        self.current_key = None;
                        self.current_value = None;
                        self.current_position = self.current_position + 1;
                    } else if next_leaf.0 != 0 {
                        self.current_page_id = next_leaf;
                        self.current_position = 0;
                        proof {
                            assert(at + 1 < ls.len());
                            at = at + 1;
                        }
                    } else {
                        self.exhausted = true;
                        proof {
                            if at + 1 < ls.len() {
                                assert(ls[at + 1] != 0);
                            }
                            assert(at == ls.len() - 1);
                            assert(walk(n, ls, at + 1, 0, self.bounds, self.snapshot_lsn)
                                == ScanStop::End);
                            assert(goal == ScanStop::End);
                        }
                        return Ok(());
                    }
                },
                BTreeNode::Internal { .. } => {
                    return Err(
                        TableError::Corruption(
                            Corruption::ParentNotInternal(self.current_page_id),
                        ),
                    );
                },
            }
        }
    }

    /// Whether the cursor shows an entry.
    pub fn valid(&self) -> (r: bool)
        ensures
            r == (!self.exhausted && self.current_key is Some),
    {
        !self.exhausted && self.current_key.is_some()
    }

    /// The key that the cursor shows.
    pub fn key(&self) -> (r: Option<&[u8]>)
        ensures
            r is Some <==> self.current_key is Some,
            r matches Some(k) ==> k@ == self.current_key->Some_0@,
    {
        match &self.current_key {
            Some(k) => Some(k.as_slice()),
            None => None,
        }
    }

    /// The value that the cursor shows.
    pub fn value(&self) -> (r: Option<&[u8]>)
        ensures
            r is Some <==> self.current_value is Some,
            r matches Some(v) ==> v@ == self.current_value->Some_0@,
    {
        match &self.current_value {
            Some(v) => Some(v.as_slice()),
            None => None,
        }
    }

    /// Moves to the next entry that the reader sees. An exhausted cursor stays as it is.
    pub fn next(&mut self) -> (r: TableResult<()>)
        requires
            old(self).wf(),
            old(self).ready(),
        ensures
            r is Ok,
            final(self).wf(),
            final(self).ready(),
            final(self).same_scan(old(self)),
            old(self).exhausted ==> *final(self) == *old(self),
            !old(self).exhausted ==> forall|leaf: int|
                #![trigger old(self).leaves()[leaf]]
                old(self).is_at(leaf, old(self).current_position as int) ==> final(self).stopped_at(
                    walk(
                        old(self).nodes(),
                        old(self).leaves(),
                        leaf,
                        old(self).current_position + 1,
                        old(self).bounds,
                        old(self).snapshot_lsn,
                    ),
                ),
    {
        if self.exhausted {
            return Ok(());
        }
        let ghost n = self.nodes();
        let ghost ls = self.leaves();
        let ghost leaf = choose|leaf: int|
            #![trigger self.leaves()[leaf]]
            {
                &&& self.is_at(leaf, self.current_position as int)
                &&& !self.exhausted ==> self.current_position < self.nodes()[self.leaves()[leaf]]->Leaf_keys.len()
                &&& !self.exhausted && self.current_key is Some ==> self.shows(
                    leaf,
                    self.current_position as int,
                )
            };
        proof {
            lemma_leaves(n, self.table.root_page_id.0, self.table.height@, None, None, 0);
            lemma_unique_leaf(ls, leaf);
        }
        let len: usize = self.leaf_len(Ghost(leaf));
        assert(self.current_position < len);
        self.current_position = self.current_position + 1;
        assert(self.is_at(leaf, self.current_position as int));
        self.advance_to_next_visible(Ghost(leaf))
    }

    fn leaf_len(&self, Ghost(leaf): Ghost<int>) -> (r: usize)
        requires
            self.wf(),
            self.is_at(leaf, self.current_position as int),
        ensures
            r == self.nodes()[self.leaves()[leaf]]->Leaf_keys.len(),
    {
        proof {
            lemma_leaves(
                self.nodes(),
                self.table.root_page_id.0,
                self.table.height@,
                None,
                None,
                0,
            );
            assert(self.nodes().contains_key(self.leaves()[leaf]));
        }
        match self.table.read_node(self.pager, self.current_page_id) {
            Ok(node) => node.key_count(),
            Err(_) => 0,
        }
    }

    /// Whether the entry at the current position has that key.
    fn is_on(&self, key: &[u8], Ghost(leaf): Ghost<int>) -> (r: bool)
        requires
            self.wf(),
            self.is_at(leaf, self.current_position as int),
        ensures
            r == is_entry(
                self.nodes()[self.leaves()[leaf]],
                self.current_position as int,
                key@,
            ),
            r ==> self.current_position < usize::MAX,
    {
        proof {
            lemma_leaves(
                self.nodes(),
                self.table.root_page_id.0,
                self.table.height@,
                None,
                None,
                0,
            );
            assert(self.nodes().contains_key(self.leaves()[leaf]));
        }
        match self.table.read_node(self.pager, self.current_page_id) {
            Ok(BTreeNode::Leaf { version: _, entries, next_leaf: _ }) => {
                self.current_position < entries.len() && bytes_equal(
                    entries[self.current_position].key.as_slice(),
                    key,
                )
            },
            _ => false,
        }
    }

    /// Shows the entry at the current position if the reader sees it. Out of bounds it exhausts
    /// the cursor.
    fn load_current_entry(&mut self, Ghost(leaf): Ghost<int>)
        requires
            old(self).wf(),
            old(self).is_at(leaf, old(self).current_position as int),
            old(self).current_position < old(self).nodes()[old(self).leaves()[leaf]]->Leaf_keys.len(),
        ensures
            final(self).wf(),
            final(self).same_scan(old(self)),
            final(self).current_page_id == old(self).current_page_id,
            final(self).current_position == old(self).current_position,
            ({
                let node = old(self).nodes()[old(self).leaves()[leaf]];
                let p = old(self).current_position as int;
                if !old(self).bounds.admits(node->Leaf_keys[p]) {
                    &&& final(self).exhausted
                    &&& final(self).current_key is None
                    &&& final(self).current_value is None
                } else {
                    &&& final(self).exhausted == old(self).exhausted
                    &&& if shown(node->chains[p], old(self).snapshot_lsn) is Some {
                        final(self).shows(leaf, p)
                    } else {
                        final(self).current_key is None && final(self).current_value is None
                    }
                }
            }),
    {
        proof {
            lemma_leaves(
                self.nodes(),
                self.table.root_page_id.0,
                self.table.height@,
                None,
                None,
                0,
            );
            assert(self.nodes().contains_key(self.leaves()[leaf]));
        }
        match self.table.read_node(self.pager, self.current_page_id) {
            Ok(BTreeNode::Leaf { version: _, entries, next_leaf: _ }) => {
                let entry = &entries[self.current_position];
                if !self.bounds.contains(entry.key.as_slice()) {
                    self.exhausted = true;
                    self.current_key = None;
                    self.current_value = None;
                    return;
                }
                let snapshot = Snapshot::at(self.snapshot_lsn);
                match entry.chain.find_visible_version(&snapshot) {
                    Some(value) => {
                        if value.len() > 0 {
                            self.current_key = Some(copy_bytes(entry.key.as_slice()));
                            self.current_value = Some(copy_bytes(value));
                            return;
                        }
                    },
                    None => {},
                }
                self.current_key = None;
                self.current_value = None;
            },
            _ => {},
        }
    }

    /// The cursor is where a walk back in a leaf stops: it shows the entry that was found, or it is
    /// exhausted at the front of the leaf.
    pub open spec fn stopped_back(&self, leaf: int, stop: Option<int>) -> bool {
        match stop {
            Some(pos) => self.is_at(leaf, pos) && self.shows(leaf, pos) && !self.exhausted,
            None => self.is_at(leaf, 0) && self.exhausted && self.current_key is None
                && self.current_value is None,
        }
    }

    /// Walks back from the current position to the front of its leaf.
    fn retreat_to_prev_visible(&mut self, Ghost(leaf): Ghost<int>)
        requires
            old(self).wf(),
            old(self).is_at(leaf, old(self).current_position as int),
        ensures
            final(self).wf(),
            final(self).ready(),
            final(self).same_scan(old(self)),
            final(self).stopped_back(
                leaf,
                walk_back(
                    old(self).nodes()[old(self).leaves()[leaf]],
                    old(self).current_position as int,
                    old(self).bounds,
                    old(self).snapshot_lsn,
                ),
            ),
    {
        let ghost node = self.nodes()[self.leaves()[leaf]];
        while self.current_position > 0
            invariant
                self.wf(),
                self.same_scan(old(self)),
                self.is_at(leaf, self.current_position as int),
                node == self.nodes()[self.leaves()[leaf]],
                walk_back(
                    node,
                    self.current_position as int,
                    self.bounds,
                    self.snapshot_lsn,
                ) == walk_back(
                    node,
                    old(self).current_position as int,
                    old(self).bounds,
                    old(self).snapshot_lsn,
                ),
            decreases self.current_position,
        {
            self.current_position = self.current_position - 1;
            let ghost p = self.current_position as int;
            self.load_current_entry(Ghost(leaf));
            if self.current_key.is_some() {
                self.exhausted = false;
                proof {
                    self.lemma_stopped_back(leaf, Some(p));
                }
                return;
            }
        }
        self.exhausted = true;
        self.current_key = None;
        self.current_value = None;
    }

    /// Moves back to the previous entry of the same leaf that the reader sees. At the front of the
    /// leaf the cursor is exhausted. An exhausted cursor stays as it is.
    pub fn prev(&mut self) -> (r: TableResult<()>)
        requires
            old(self).wf(),
            old(self).ready(),
        ensures
            r is Ok,
            final(self).wf(),
            final(self).ready(),
            final(self).same_scan(old(self)),
            old(self).exhausted ==> *final(self) == *old(self),
            !old(self).exhausted ==> forall|leaf: int|
                #![trigger old(self).leaves()[leaf]]
                old(self).is_at(leaf, old(self).current_position as int) ==> final(self).stopped_back(
                    leaf,
                    walk_back(
                        old(self).nodes()[old(self).leaves()[leaf]],
                        old(self).current_position as int,
                        old(self).bounds,
                        old(self).snapshot_lsn,
                    ),
                ),
    {
        if self.exhausted {
            return Ok(());
        }
        let ghost n = self.nodes();
        let ghost ls = self.leaves();
        let ghost leaf = choose|leaf: int|
            #![trigger self.leaves()[leaf]]
            {
                &&& self.is_at(leaf, self.current_position as int)
                &&& !self.exhausted ==> self.current_position < self.nodes()[self.leaves()[leaf]]->Leaf_keys.len()
                &&& !self.exhausted && self.current_key is Some ==> self.shows(
                    leaf,
                    self.current_position as int,
                )
            };
        proof {
            lemma_leaves(n, self.table.root_page_id.0, self.table.height@, None, None, 0);
            lemma_unique_leaf(ls, leaf);
        }
        self.retreat_to_prev_visible(Ghost(leaf));
        Ok(())
    }

    /// Goes to the position of a key.
    fn go_to(&mut self, key: &[u8]) -> (r: TableResult<()>)
        requires
            old(self).wf(),
        ensures
            r is Ok,
            final(self).wf(),
            final(self).same_scan(old(self)),
            final(self).exhausted == old(self).exhausted,
            final(self).current_key == old(self).current_key,
            final(self).current_value == old(self).current_value,
            final(self).is_at(old(self).place_of(key@).0, old(self).place_of(key@).1),
    {
        let ghost n = self.nodes();
        let ghost root = self.table.root_page_id.0;
        let ghost h = self.table.height@;
        proof {
            lemma_leaves(n, root, h, None, None, 0);
            lemma_route(n, root, h, None, None, 0, key@);
            let leaf = route(n, root, h, key@).last();
            assert(owns(n, root, h, route(n, root, h, key@)[h as int]));
            assert(self.leaves().contains(leaf));
            crate::bytemap::lemma_rank_parts(n[leaf]->Leaf_keys, key@);
        }
        match self.table.search(self.pager, key) {
            Ok((leaf, pos)) => {
                self.current_page_id = leaf;
                self.current_position = pos;
                Ok(())
            },
            Err(e) => Err(e),
        }
    }

    fn exhaust(&mut self)
        requires
            old(self).wf(),
        ensures
            final(self).wf(),
            final(self).same_scan(old(self)),
            final(self).sought(SeekTarget::Nowhere),
    {
        self.exhausted = true;
        self.current_key = None;
        self.current_value = None;
    }

    /// Moves to the first entry from `key` on that the reader sees, up to the first one out of
    /// bounds.
    pub fn seek(&mut self, key: &[u8]) -> (r: TableResult<()>)
        requires
            old(self).wf(),
        ensures
            r is Ok,
            final(self).wf(),
            final(self).ready(),
            final(self).same_scan(old(self)),
            final(self).sought(seek_target(old(self).bounds, key@)),
    {
        self.exhausted = false;
        if self.bounds.contains(key) {
            return self.seek_inside(key);
        }
        let start: Option<(Vec<u8>, bool)> = match &self.bounds {
            ScanBounds::Range { start, end: _ } => match start {
                Bound::Included(k) => {
                    proof {
                        lemma_lex_total(key@, k@);
                    }
                    match compare_bytes(key, k.0.as_slice()) {
                        ByteOrder::Less => Some((copy_bytes(k.0.as_slice()), false)),
                        _ => None,
                    }
                },
                Bound::Excluded(k) => {
                    proof {
                        lemma_lex_total(key@, k@);
                        if lex_lt(k@, key@) {
                            lemma_lex_asymmetric(k@, key@);
                        }
                    }
                    match compare_bytes(key, k.0.as_slice()) {
                        ByteOrder::Greater => None,
                        _ => Some((copy_bytes(k.0.as_slice()), true)),
                    }
                },
                Bound::Unbounded => None,
            },
            _ => None,
        };
        match start {
            Some((k, behind)) => {
                if behind {
                    self.seek_behind(k.as_slice())
                } else if self.bounds.contains(k.as_slice()) {
                    self.seek_inside(k.as_slice())
                } else {
                    self.exhaust();
                    Ok(())
                }
            },
            None => {
                self.exhaust();
                Ok(())
            },
        }
    }

    fn seek_inside(&mut self, key: &[u8]) -> (r: TableResult<()>)
        requires
            old(self).wf(),
            !old(self).exhausted,
        ensures
            r is Ok,
            final(self).wf(),
            final(self).ready(),
            final(self).same_scan(old(self)),
            final(self).sought(SeekTarget::At(key@)),
    {
        let ghost place = self.place_of(key@);
        match self.go_to(key) {
            Ok(()) => self.advance_to_next_visible(Ghost(place.0)),
            Err(e) => Err(e),
        }
    }

    fn seek_behind(&mut self, key: &[u8]) -> (r: TableResult<()>)
        requires
            old(self).wf(),
            !old(self).exhausted,
        ensures
            r is Ok,
            final(self).wf(),
            final(self).ready(),
            final(self).same_scan(old(self)),
            final(self).sought(SeekTarget::Behind(key@)),
    {
        let ghost place = self.place_of(key@);
        match self.go_to(key) {
            Ok(()) => {
                if self.is_on(key, Ghost(place.0)) {
                    self.current_position = self.current_position + 1;
                }
                self.advance_to_next_visible(Ghost(place.0))
            },
            Err(e) => Err(e),
        }
    }

    /// Moves to where a scan from the front starts; refused where an internal node on the way to
    /// the front has no key.
    pub fn first(&mut self) -> (r: TableResult<()>)
        requires
            old(self).wf(),
        ensures
            final(self).wf(),
            final(self).same_scan(old(self)),
            r is Err <==> old(self).starts_at_front() && old(self).front() is None,
            r is Ok ==> final(self).is_first() && final(self).ready(),
            r is Err ==> !final(self).exhausted && final(self).current_key == old(self).current_key,
    {
        let key: Option<Vec<u8>> = match &self.bounds {
            ScanBounds::All => None,
            ScanBounds::Prefix(p) => Some(copy_bytes(p.0.as_slice())),
            ScanBounds::Range { start, end: _ } => match start {
                Bound::Included(k) | Bound::Excluded(k) => Some(copy_bytes(k.0.as_slice())),
                Bound::Unbounded => None,
            },
        };
        match key {
            Some(k) => self.seek(k.as_slice()),
            None => {
                self.exhausted = false;
                let leaf = match self.find_leftmost_leaf() {
                    Ok(id) => id,
                    Err(e) => {
                        return Err(e);
                    },
                };
                proof {
                    let n = self.nodes();
                    let root = self.table.root_page_id.0;
                    let h = self.table.height@;
                    lemma_leaves(n, root, h, None, None, 0);
                    lemma_leftmost(n, root, h);
                }
                self.current_page_id = leaf;
                self.current_position = 0;
                assert(self.is_at(0, 0));
                self.advance_to_next_visible(Ghost(0))
            },
        }
    }

    /// Moves to the last entry of the last leaf that the reader sees.
    pub fn last(&mut self) -> (r: TableResult<()>)
        requires
            old(self).wf(),
        ensures
            r is Ok,
            final(self).wf(),
            final(self).ready(),
            final(self).same_scan(old(self)),
            final(self).stopped_back(
                old(self).leaves().len() - 1,
                walk_back(
                    old(self).nodes()[old(self).leaves().last()],
                    old(self).nodes()[old(self).leaves().last()]->Leaf_keys.len() as int,
                    old(self).bounds,
                    old(self).snapshot_lsn,
                ),
            ),
    {
        proof {
            lemma_leaves(
                self.nodes(),
                self.table.root_page_id.0,
                self.table.height@,
                None,
                None,
                0,
            );
        }
        let ghost leaf = self.leaves().len() - 1;
        self.exhausted = false;
        match self.find_rightmost_leaf() {
            Ok(id) => {
                self.current_page_id = id;
                self.current_position = 0;
                assert(self.is_at(leaf, 0));
                let len: usize = self.leaf_len(Ghost(leaf));
                self.current_position = len;
                self.retreat_to_prev_visible(Ghost(leaf));
                Ok(())
            },
            Err(e) => Err(e),
        }
    }

    /// Moves to `key`, or back from there to the last entry of the same leaf that the reader sees. A key behind the end of a range goes to the last entry, any other key out of bounds
    /// nowhere.
    pub fn seek_for_prev(&mut self, key: &[u8]) -> (r: TableResult<()>)
        requires
            old(self).wf(),
        ensures
            r is Ok,
            final(self).wf(),
            final(self).ready(),
            final(self).same_scan(old(self)),
            ({
                let behind_end = match old(self).bounds {
                    ScanBounds::Range { start, end } => !end.admits_to(key@),
                    _ => false,
                };
                let (leaf, pos) = old(self).place_of(key@);
                let node = old(self).nodes()[old(self).leaves()[leaf]];
                if old(self).bounds.admits(key@) {
                    final(self).stopped_back(
                        leaf,
                        walk_back(
                            node,
                            pos + (if is_entry(node, pos, key@) {
                                1int
                            } else {
                                0int
                            }),
                            old(self).bounds,
                            old(self).snapshot_lsn,
                        ),
                    )
                } else if behind_end {
                    final(self).stopped_back(
                        old(self).leaves().len() - 1,
                        walk_back(
                            old(self).nodes()[old(self).leaves().last()],
                            old(self).nodes()[old(self).leaves().last()]->Leaf_keys.len() as int,
                            old(self).bounds,
                            old(self).snapshot_lsn,
                        ),
                    )
                } else {
                    final(self).sought(SeekTarget::Nowhere)
                }
            }),
    {
        self.exhausted = false;
        if !self.bounds.contains(key) {
            let behind_end: bool = match &self.bounds {
                ScanBounds::Range { start: _, end } => !end.allows_to(key),
                _ => false,
            };
            if behind_end {
                return self.last();
            }
            self.exhaust();
            return Ok(());
        }
        let ghost (leaf, pos) = self.place_of(key@);
        match self.go_to(key) {
            Ok(()) => {},
            Err(e) => {
                return Err(e);
            },
        }
        proof {
            lemma_leaves(
                self.nodes(),
                self.table.root_page_id.0,
                self.table.height@,
                None,
                None,
                0,
            );
            assert(self.nodes().contains_key(self.leaves()[leaf]));
        }
        let exact: bool = self.is_on(key, Ghost(leaf));
        if exact {
            self.current_position = self.current_position + 1;
        }
        self.retreat_to_prev_visible(Ghost(leaf));
        Ok(())
    }

    /// The point of the log that the cursor reads at.
    pub fn snapshot_lsn(&self) -> (r: LogSequenceNumber)
        ensures
            r == self.snapshot_lsn,
    {
        self.snapshot_lsn
    }
}

proof fn lemma_unique_leaf(ls: Seq<u64>, leaf: int)
    requires
        ls.no_duplicates(),
        0 <= leaf < ls.len(),
    ensures
        forall|j: int| 0 <= j < ls.len() && ls[j] == ls[leaf] ==> j == leaf,
{
}

proof fn lemma_leftmost(n: Nodes, id: u64, h: nat)
    requires
        leftmost(n, id, h) is Some,
    ensures
        leftmost(n, id, h) == Some(first_leaf(n, id, h)),
    decreases h,
{
    if h > 0 && n[id] is Internal && n[id]->Internal_keys.len() > 0 {
        lemma_leftmost(n, n[id]->kids[0], (h - 1) as nat);
    }
}

/// Walks over index entries: index keys and the primary keys they point at.
pub struct PagedBTreeSpecialtyCursor<'a> {
    pub inner: PagedBTreeCursor<'a>,
}

impl<'a> PagedBTreeSpecialtyCursor<'a> {
    /// Whether the cursor shows an entry.
    pub fn valid(&self) -> (r: bool)
        ensures
            r == (!self.inner.exhausted && self.inner.current_key is Some),
    {
        self.inner.valid()
    }

    /// The index key of the entry.
    pub fn index_key(&self) -> (r: Option<&[u8]>)
        ensures
            r is Some <==> self.inner.current_key is Some,
            r matches Some(k) ==> k@ == self.inner.current_key->Some_0@,
    {
        self.inner.key()
    }

    /// The primary key of the entry.
    pub fn primary_key(&self) -> (r: Option<&[u8]>)
        ensures
            r is Some <==> self.inner.current_value is Some,
            r matches Some(v) ==> v@ == self.inner.current_value->Some_0@,
    {
        self.inner.value()
    }

    /// Moves to the next entry.
    pub fn next(&mut self) -> (r: TableResult<()>)
        requires
            old(self).inner.wf(),
            old(self).inner.ready(),
        ensures
            r is Ok,
            final(self).inner.wf(),
            final(self).inner.ready(),
            final(self).inner.same_scan(&old(self).inner),
            old(self).inner.exhausted ==> final(self).inner == old(self).inner,
            !old(self).inner.exhausted ==> forall|leaf: int|
                #![trigger old(self).inner.leaves()[leaf]]
                old(self).inner.is_at(leaf, old(self).inner.current_position as int) ==> final(self).inner.stopped_at(
                    walk(
                        old(self).inner.nodes(),
                        old(self).inner.leaves(),
                        leaf,
                        old(self).inner.current_position + 1,
                        old(self).inner.bounds,
                        old(self).inner.snapshot_lsn,
                    ),
                ),
    {
        self.inner.next()
    }

    /// Moves back to the previous entry of the same leaf.
    pub fn prev(&mut self) -> (r: TableResult<()>)
        requires
            old(self).inner.wf(),
            old(self).inner.ready(),
        ensures
            r is Ok,
            final(self).inner.wf(),
            final(self).inner.ready(),
            final(self).inner.same_scan(&old(self).inner),
            old(self).inner.exhausted ==> final(self).inner == old(self).inner,
            !old(self).inner.exhausted ==> forall|leaf: int|
                #![trigger old(self).inner.leaves()[leaf]]
                old(self).inner.is_at(leaf, old(self).inner.current_position as int) ==> final(self).inner.stopped_back(
                    leaf,
                    walk_back(
                        old(self).inner.nodes()[old(self).inner.leaves()[leaf]],
                        old(self).inner.current_position as int,
                        old(self).inner.bounds,
                        old(self).inner.snapshot_lsn,
                    ),
                ),
    {
        self.inner.prev()
    }

    /// Moves to the first entry from `index_key` on.
    pub fn seek(&mut self, index_key: &[u8]) -> (r: TableResult<()>)
        requires
            old(self).inner.wf(),
        ensures
            r is Ok,
            final(self).inner.wf(),
            final(self).inner.same_scan(&old(self).inner),
            final(self).inner.ready(),
            final(self).inner.sought(seek_target(old(self).inner.bounds, index_key@)),
    {
        self.inner.seek(index_key)
    }
}

impl PagedBTree {
    /// A reader at `snapshot_lsn`.
    pub fn reader<'a>(&'a self, pager: &'a Pager, snapshot_lsn: LogSequenceNumber) -> (r: TableResult<
        PagedBTreeReader<'a>,
    >)
        ensures
            r is Ok,
            *r->Ok_0.table == *self,
            *r->Ok_0.pager == *pager,
            r->Ok_0.snapshot_lsn == snapshot_lsn,
    {
        Ok(PagedBTreeReader { table: self, pager, snapshot_lsn })
    }

    /// A cursor over the index entries within the bounds, all committed versions seen.
    pub fn scan<'a>(&'a self, pager: &'a Pager, bounds: ScanBounds) -> (r: TableResult<
        PagedBTreeSpecialtyCursor<'a>,
    >)
        requires
            self.wf(pager),
        ensures
            r is Ok,
            r->Ok_0.inner.is_new(self, pager, bounds, LogSequenceNumber(u64::MAX)),
    {
        Ok(
            PagedBTreeSpecialtyCursor {
                inner: PagedBTreeCursor::new(self, pager, bounds, LogSequenceNumber(u64::MAX)),
            },
        )
    }
}

} // verus!
