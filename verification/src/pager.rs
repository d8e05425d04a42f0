//! The page store: numbered pages of bounded size.
use crate::bytes::copy_bytes;
use vstd::prelude::*;
use vstd::std_specs::convert::FromSpecImpl;

verus! {

/// Identifies a page. Zero names no page.
#[derive(Clone, Copy, Debug, PartialEq, Eq, Hash, Structural)]
pub struct PageId(pub u64);

impl From<u64> for PageId {
    fn from(value: u64) -> (r: Self) {
        PageId(value)
    }
}

impl FromSpecImpl<u64> for PageId {
    open spec fn obeys_from_spec() -> bool {
        true
    }

    open spec fn from_spec(value: u64) -> Self {
        PageId(value)
    }
}

impl PageId {
    /// The number of the page.
    pub fn as_u64(&self) -> (r: u64)
        ensures
            r == self.0,
    {
        self.0
    }
}

/// What a page is used for.
#[derive(Clone, Copy, Debug, PartialEq, Eq, Structural)]
pub enum PageType {
    BTreeInternal,
    BTreeLeaf,
    BloomMeta,
    BloomData,
    Catalog,
    InvertedIndex,
    LsmMeta,
    LsmData,
    Overflow,
    VectorIndex,
}

/// The size of the pages of a store.
#[derive(Clone, Copy, Debug, PartialEq, Eq, Structural)]
pub enum PageSize {
    Size4KB,
    Size8KB,
    Size16KB,
    Size32KB,
    Size64KB,
}

impl PageSize {
    /// The size of a page on disk.
    pub open spec fn bytes(&self) -> nat {
        match self {
            PageSize::Size4KB => 4096,
            PageSize::Size8KB => 8192,
            PageSize::Size16KB => 16384,
            PageSize::Size32KB => 32768,
            PageSize::Size64KB => 65536,
        }
    }

    /// The size of a page on disk.
    pub fn to_u32(&self) -> (r: u32)
        ensures
            r == self.bytes(),
    {
        match self {
            PageSize::Size4KB => 4096,
            PageSize::Size8KB => 8192,
            PageSize::Size16KB => 16384,
            PageSize::Size32KB => 32768,
            PageSize::Size64KB => 65536,
        }
    }

    /// What a page can hold: its size less header and checksum.
    pub open spec fn capacity(&self) -> nat {
        (self.bytes() - 64) as nat
    }

    /// What a page can hold: its size less header and checksum.
    pub fn data_size(&self) -> (r: usize)
        ensures
            r == self.capacity(),
    {
        match self {
            PageSize::Size4KB => 4032,
            PageSize::Size8KB => 8128,
            PageSize::Size16KB => 16320,
            PageSize::Size32KB => 32704,
            PageSize::Size64KB => 65472,
        }
    }
}

impl Default for PageSize {
    fn default() -> (r: Self)
        ensures
            r == PageSize::Size4KB,
    {
        PageSize::Size4KB
    }
}

/// Why the store refused a request.
#[derive(Clone, Copy, Debug, PartialEq, Eq, Structural)]
pub enum PagerError {
    /// The page is not allocated.
    PageNotFound(PageId),
    /// The data does not fit the page.
    PageOverflow { page_id: PageId, len: usize, capacity: usize },
}

/// A page as it is handed in and out.
#[derive(Debug)]
pub struct Page {
    pub id: PageId,
    pub page_type: PageType,
    pub data: Vec<u8>,
}

/// A page as the contracts speak of it.
#[verifier::ext_equal]
pub struct PageView {
    pub page_type: PageType,
    pub data: Seq<u8>,
}

impl Page {
    /// An empty page.
    pub fn new(id: PageId, page_type: PageType) -> (r: Self)
        ensures
            r.id == id,
            r.page_type == page_type,
            r.data@ == Seq::<u8>::empty(),
    {
        Page { id, page_type, data: Vec::new() }
    }

    /// What the page holds.
    pub open spec fn contents(&self) -> PageView {
        PageView { page_type: self.page_type, data: self.data@ }
    }
}

/// A store of pages in memory.
#[derive(Debug)]
pub struct Pager {
    pub size: PageSize,
    pub slots: Vec<Option<Page>>,
    pub root_btree_page: PageId,
    pub btree_rows: u64,
}

impl Pager {
    /// Page zero is never allocated, and every page holds no more than it can.
    pub open spec fn wf(&self) -> bool {
        &&& self.slots@.len() > 0
        &&& self.slots@[0] is None
        &&& forall|i: int|
            0 <= i < self.slots@.len() && (#[trigger] self.slots@[i]) is Some
                ==> self.slots@[i]->Some_0.data@.len() <= self.capacity()
    }

    /// Page `id` is allocated.
    pub open spec fn has(&self, id: u64) -> bool {
        0 <= id < self.slots@.len() && self.slots@[id as int] is Some
    }

    /// The allocated pages.
    pub open spec fn pages(&self) -> Map<u64, PageView> {
        Map::new(|id: u64| self.has(id), |id: u64| self.slots@[id as int]->Some_0.contents())
    }

    /// What a page can hold.
    pub open spec fn capacity(&self) -> nat {
        self.size.capacity()
    }

    /// This store came of the other by changes to its pages alone: no page number was given up.
    pub open spec fn same_meta(&self, other: &Pager) -> bool {
        &&& self.slots@.len() >= other.slots@.len()
        &&& self.size == other.size
        &&& self.root_btree_page == other.root_btree_page
        &&& self.btree_rows == other.btree_rows
    }

    /// A store without pages.
    pub fn create(size: PageSize) -> (r: Self)
        ensures
            r.wf(),
            r.size == size,
            r.pages() == Map::<u64, PageView>::empty(),
            r.root_btree_page == PageId(0),
            r.btree_rows == 0,
    {
        let mut slots: Vec<Option<Page>> = Vec::new();
        slots.push(None);
        let r = Pager { size, slots, root_btree_page: PageId(0), btree_rows: 0 };
        assert(r.pages() =~= Map::<u64, PageView>::empty());
        r
    }

    /// The size of the pages.
    pub fn page_size(&self) -> (r: PageSize)
        ensures
            r == self.size,
    {
        self.size
    }

    /// Allocates an empty page under a number that no page had before.
    pub fn allocate_page(&mut self, page_type: PageType) -> (id: PageId)
        requires
            old(self).wf(),
        ensures
            final(self).wf(),
            final(self).same_meta(old(self)),
            id.0 != 0,
            id.0 == old(self).slots@.len(),
            final(self).slots@.len() == old(self).slots@.len() + 1,
            !old(self).pages().contains_key(id.0),
            final(self).pages() == old(self).pages().insert(
                id.0,
                PageView { page_type, data: Seq::empty() },
            ),
    {
        let n: usize = self.slots.len();
        let id = PageId(n as u64);
        self.slots.push(Some(Page::new(id, page_type)));
        proof {
            assert(self.pages() =~= old(self).pages().insert(
                id.0,
                PageView { page_type, data: Seq::empty() },
            ));
        }
        id
    }

    /// A copy of an allocated page.
    pub fn read_page(&self, id: PageId) -> (r: Result<Page, PagerError>)
        requires
            self.wf(),
        ensures
            r is Ok <==> self.pages().contains_key(id.0),
            r matches Ok(p) ==> p.id == id && p.contents() == self.pages()[id.0],
            r matches Err(e) ==> e == PagerError::PageNotFound(id),
    {
        if id.0 < self.slots.len() as u64 {
            if let Some(p) = &self.slots[id.0 as usize] {
                return Ok(Page { id, page_type: p.page_type, data: copy_bytes(p.data.as_slice()) });
            }
        }
        Err(PagerError::PageNotFound(id))
    }

    /// Replaces what an allocated page holds.
    pub fn write_page(&mut self, page: Page) -> (r: Result<(), PagerError>)
        requires
            old(self).wf(),
        ensures
            final(self).wf(),
            final(self).same_meta(old(self)),
            final(self).slots@.len() == old(self).slots@.len(),
            r is Ok <==> old(self).pages().contains_key(page.id.0) && page.data@.len() <= old(
                self,
            ).capacity(),
            r is Ok ==> final(self).pages() == old(self).pages().insert(
                page.id.0,
                page.contents(),
            ),
            r matches Err(e) ==> final(self).pages() == old(self).pages() && e == (
            if old(self).pages().contains_key(page.id.0) {
                PagerError::PageOverflow {
                    page_id: page.id,
                    len: page.data@.len() as usize,
                    capacity: old(self).capacity() as usize,
                }
            } else {
                PagerError::PageNotFound(page.id)
            }),
    {
        let id = page.id;
        if id.0 < self.slots.len() as u64 {
            if self.slots[id.0 as usize].is_some() {
                let capacity: usize = self.size.data_size();
                let len: usize = page.data.len();
                if len > capacity {
                    return Err(PagerError::PageOverflow { page_id: id, len, capacity });
                }
                let ghost contents = page.contents();
                self.slots.set(id.0 as usize, Some(page));
                proof {
                    assert(self.pages() =~= old(self).pages().insert(id.0, contents));
                }
                return Ok(());
            }
        }
        Err(PagerError::PageNotFound(id))
    }

    /// Releases an allocated page.
    pub fn free_page(&mut self, id: PageId) -> (r: Result<(), PagerError>)
        requires
            old(self).wf(),
        ensures
            final(self).wf(),
            final(self).same_meta(old(self)),
            final(self).slots@.len() == old(self).slots@.len(),
            r is Ok <==> old(self).pages().contains_key(id.0),
            r is Ok ==> final(self).pages() == old(self).pages().remove(id.0),
            r matches Err(e) ==> final(self).pages() == old(self).pages() && e
                == PagerError::PageNotFound(id),
    {
        if id.0 < self.slots.len() as u64 {
            if self.slots[id.0 as usize].is_some() {
                self.slots.set(id.0 as usize, None);
                proof {
                    assert(self.pages() =~= old(self).pages().remove(id.0));
                }
                return Ok(());
            }
        }
        Err(PagerError::PageNotFound(id))
    }

    /// Records the root page of the store's B-tree.
    pub fn set_root_btree_page(&mut self, id: PageId)
        requires
            old(self).wf(),
        ensures
            final(self).wf(),
            final(self).pages() == old(self).pages(),
            final(self).size == old(self).size,
            final(self).slots@ == old(self).slots@,
            final(self).root_btree_page == id,
            final(self).btree_rows == old(self).btree_rows,
    {
        self.root_btree_page = id;
        proof {
            assert(self.pages() =~= old(self).pages());
        }
    }

    /// Records the number of rows of the store's B-tree.
    pub fn set_btree_row_count(&mut self, rows: u64)
        requires
            old(self).wf(),
        ensures
            final(self).wf(),
            final(self).pages() == old(self).pages(),
            final(self).size == old(self).size,
            final(self).slots@ == old(self).slots@,
            final(self).root_btree_page == old(self).root_btree_page,
            final(self).btree_rows == rows,
    {
        self.btree_rows = rows;
        proof {
            assert(self.pages() =~= old(self).pages());
        }
    }

    /// The recorded number of rows of the store's B-tree.
    pub fn btree_row_count(&self) -> (r: u64)
        ensures
            r == self.btree_rows,
    {
        self.btree_rows
    }
}

} // verus!
