//! A Bloom filter whose bits stand in pages.
use crate::bloom::bits::{
    best_hash_count, bit, bit_position, get_bit, hash_count, hash_key, is_bit_of, lemma_zero_byte,
    position_of, set_bit, zeros,
};
use crate::bytes::append_bytes;
use crate::pager::{Page, PageId, PageType, PageView, Pager, PagerError};
use crate::table::{
    ConsistencyError, ConsistencyErrorType, ConsistencyWarning, Corruption,
    SpecialtyTableCapabilities, SpecialtyTableStats, TableCapabilities, TableEngineKind, TableError,
    TableResult, TableStatistics, VerificationReport,
};
use crate::types::{LogSequenceNumber, TableId, TransactionId};
use vstd::arithmetic::div_mod::lemma_fundamental_div_mod;
use vstd::bytes::*;
use vstd::prelude::*;

verus! {

/// What a root page starts with.
pub const BLOOM_MAGIC: u32 = 0x424C_4F4D;

/// The version of the layout of root pages.
pub const BLOOM_VERSION: u32 = 1;

/// Where the page numbers start in a root page.
pub const METADATA_SIZE: usize = 72;

/// A Bloom filter in pages.
pub struct PagedBloomFilter {
    pub table_id: TableId,
    pub name: String,
    pub root_page_id: PageId,
    pub num_bits: usize,
    pub num_hash_functions: usize,
    pub num_items: usize,
    /// The pages with the bits, in order.
    pub bitmap_pages: Vec<PageId>,
    pub bits_per_page: usize,
}

/// A bit of the filter.
pub open spec fn page_bit(
    pages: Map<u64, PageView>,
    ids: Seq<PageId>,
    per_page: int,
    p: int,
) -> bool {
    bit(pages[ids[p / per_page].0].data, p % per_page)
}

/// So many zero bytes.
pub open spec fn zero_bytes(n: int) -> Seq<u8> {
    Seq::new(n as nat, |i: int| 0u8)
}

/// The page numbers as bytes.
pub open spec fn id_bytes(ids: Seq<PageId>) -> Seq<u8>
    decreases ids.len(),
{
    if ids.len() == 0 {
        Seq::empty()
    } else {
        id_bytes(ids.drop_last()) + spec_u64_to_le_bytes(ids.last().0)
    }
}

/// The head of a root page.
pub open spec fn header_bytes(num_bits: u64, k: u32, num_items: u64, num_pages: u32) -> Seq<u8> {
    spec_u32_to_le_bytes(BLOOM_MAGIC) + spec_u32_to_le_bytes(BLOOM_VERSION) + spec_u64_to_le_bytes(
        num_bits,
    ) + spec_u32_to_le_bytes(k) + zero_bytes(4) + spec_u64_to_le_bytes(num_items)
        + spec_u32_to_le_bytes(num_pages) + zero_bytes(36)
}

/// A root page.
pub open spec fn root_bytes(
    num_bits: u64,
    k: u32,
    num_items: u64,
    ids: Seq<PageId>,
    capacity: int,
) -> Seq<u8> {
    header_bytes(num_bits, k, num_items, ids.len() as u32) + id_bytes(ids) + zero_bytes(
        capacity - METADATA_SIZE - 8 * ids.len(),
    )
}

/// What a root page says.
#[verifier::ext_equal]
pub struct RootView {
    pub num_bits: u64,
    pub num_hash_functions: u32,
    pub num_items: u64,
    pub bitmap_pages: Seq<PageId>,
}

/// What a root page says, or what is wrong with it.
pub open spec fn parse_root(data: Seq<u8>, id: PageId) -> TableResult<RootView> {
    if data.len() < METADATA_SIZE {
        Err(TableError::Corruption(Corruption::ShortBloomPage(id)))
    } else {
        let magic = spec_u32_from_le_bytes(data.subrange(0, 4));
        let version = spec_u32_from_le_bytes(data.subrange(4, 8));
        let n = spec_u32_from_le_bytes(data.subrange(32, 36));
        if magic != BLOOM_MAGIC {
            Err(TableError::Corruption(Corruption::InvalidBloomMagic(magic)))
        } else if version != BLOOM_VERSION {
            Err(TableError::InvalidFormatVersion(version))
        } else if METADATA_SIZE + 8 * n > data.len() {
            Err(TableError::Corruption(Corruption::ShortBloomPage(id)))
        } else {
            Ok(
                RootView {
                    num_bits: spec_u64_from_le_bytes(data.subrange(8, 16)),
                    num_hash_functions: spec_u32_from_le_bytes(data.subrange(16, 20)),
                    num_items: spec_u64_from_le_bytes(data.subrange(24, 32)),
                    bitmap_pages: Seq::new(
                        n as nat,
                        |i: int|
                            PageId(
                                spec_u64_from_le_bytes(
                                    data.subrange(
                                        METADATA_SIZE + 8 * i,
                                        METADATA_SIZE + 8 * i + 8,
                                    ),
                                ),
                            ),
                    ),
                },
            )
        }
    }
}

proof fn lemma_id_bytes(ids: Seq<PageId>, i: int)
    requires
        0 <= i < ids.len(),
    ensures
        id_bytes(ids).len() == 8 * ids.len(),
        id_bytes(ids).subrange(8 * i, 8 * i + 8) == spec_u64_to_le_bytes(ids[i].0),
    decreases ids.len(),
{
    lemma_auto_spec_u64_to_from_le_bytes();
    let before = id_bytes(ids.drop_last());
    lemma_id_bytes_len(ids.drop_last());
    lemma_id_bytes_len(ids);
    if i < ids.len() - 1 {
        lemma_id_bytes(ids.drop_last(), i);
        assert(id_bytes(ids).subrange(8 * i, 8 * i + 8) =~= before.subrange(8 * i, 8 * i + 8));
    } else {
        assert(id_bytes(ids).subrange(8 * i, 8 * i + 8) =~= spec_u64_to_le_bytes(ids.last().0));
    }
}

proof fn lemma_id_bytes_len(ids: Seq<PageId>)
    ensures
        id_bytes(ids).len() == 8 * ids.len(),
    decreases ids.len(),
{
    lemma_auto_spec_u64_to_from_le_bytes();
    if ids.len() > 0 {
        lemma_id_bytes_len(ids.drop_last());
    }
}

/// A root page is read back as it was written.
pub proof fn law_root_is_read_back(
    num_bits: u64,
    k: u32,
    num_items: u64,
    ids: Seq<PageId>,
    capacity: int,
    id: PageId,
)
    requires
        METADATA_SIZE + 8 * ids.len() <= capacity <= u32::MAX,
    ensures
        parse_root(root_bytes(num_bits, k, num_items, ids, capacity), id) == Ok::<
            RootView,
            TableError,
        >(RootView { num_bits, num_hash_functions: k, num_items, bitmap_pages: ids }),
{
    lemma_auto_spec_u32_to_from_le_bytes();
    lemma_auto_spec_u64_to_from_le_bytes();
    lemma_id_bytes_len(ids);
    let data = root_bytes(num_bits, k, num_items, ids, capacity);
    assert(data.subrange(0, 4) =~= spec_u32_to_le_bytes(BLOOM_MAGIC));
    assert(data.subrange(4, 8) =~= spec_u32_to_le_bytes(BLOOM_VERSION));
    assert(data.subrange(8, 16) =~= spec_u64_to_le_bytes(num_bits));
    assert(data.subrange(16, 20) =~= spec_u32_to_le_bytes(k));
    assert(data.subrange(24, 32) =~= spec_u64_to_le_bytes(num_items));
    assert(data.subrange(32, 36) =~= spec_u32_to_le_bytes(ids.len() as u32));
    let read = parse_root(data, id)->Ok_0.bitmap_pages;
    assert forall|i: int| 0 <= i < ids.len() implies #[trigger] read[i] == ids[i] by {
        lemma_id_bytes(ids, i);
        assert(data.subrange(72 + 8 * i, 72 + 8 * i + 8) =~= id_bytes(ids).subrange(
            8 * i,
            8 * i + 8,
        ));
    }
    assert(read =~= ids);
}

impl PagedBloomFilter {
    /// The pages are there and have room for the bits, and the root page can list them.
    pub open spec fn wf(&self, pager: Pager) -> bool {
        let pages = pager.pages();
        let ids = self.bitmap_pages@;
        &&& self.bits_per_page == 8 * pager.capacity()
        &&& self.num_bits <= self.room()
        &&& METADATA_SIZE + 8 * ids.len() <= pager.capacity()
        &&& pages.contains_key(self.root_page_id.0)
        &&& forall|i: int|
            0 <= i < ids.len() ==> pages.contains_key((#[trigger] ids[i]).0)
                && pages[ids[i].0].data.len() == pager.capacity() && ids[i] != self.root_page_id
        &&& ids.no_duplicates()
    }

    /// Hashing needs bits to hash to.
    pub open spec fn can_hash(&self) -> bool {
        self.num_hash_functions > 0 ==> self.num_bits > 0
    }

    /// The filters differ in the number of items alone.
    pub open spec fn same_shape(&self, other: &Self) -> bool {
        &&& self.table_id == other.table_id
        &&& self.name == other.name
        &&& self.root_page_id == other.root_page_id
        &&& self.num_bits == other.num_bits
        &&& self.num_hash_functions == other.num_hash_functions
        &&& self.bitmap_pages == other.bitmap_pages
        &&& self.bits_per_page == other.bits_per_page
    }

    /// A bit of the filter.
    pub open spec fn bit_at(&self, pages: Map<u64, PageView>, p: int) -> bool {
        page_bit(pages, self.bitmap_pages@, self.bits_per_page as int, p)
    }

    /// All bits of the key are set.
    pub open spec fn holds(&self, pages: Map<u64, PageView>, key: Seq<u8>) -> bool {
        forall|i: int|
            0 <= i < self.num_hash_functions ==> self.bit_at(
                pages,
                #[trigger] bit_position(key, i, self.num_bits as int),
            )
    }

    /// The root page of the filter.
    pub open spec fn root_image(&self, capacity: int) -> PageView {
        PageView {
            page_type: PageType::BloomMeta,
            data: root_bytes(
                self.num_bits as u64,
                self.num_hash_functions as u32,
                self.num_items as u64,
                self.bitmap_pages@,
                capacity,
            ),
        }
    }

    /// Pages that are not of the filter stay as they are.
    pub open spec fn others_kept(&self, before: Map<u64, PageView>, after: Map<u64, PageView>) -> bool {
        forall|id: u64|
            id != self.root_page_id.0 && !self.bitmap_pages@.contains(PageId(id))
                && #[trigger] before.contains_key(id) ==> after.contains_key(id) && after[id]
                == before[id]
    }

    /// The number of pages for so many bits.
    pub open spec fn pages_for(num_bits: int, per_page: int) -> int {
        (num_bits + per_page - 1) / per_page
    }

    fn write_metadata(&self, pager: &mut Pager) -> (r: TableResult<()>)
        requires
            old(pager).wf(),
            METADATA_SIZE + 8 * self.bitmap_pages@.len() <= old(pager).capacity(),
            old(pager).pages().contains_key(self.root_page_id.0),
        ensures
            r is Ok,
            final(pager).wf(),
            final(pager).same_meta(old(pager)),
            final(pager).pages() == old(pager).pages().insert(
                self.root_page_id.0,
                self.root_image(old(pager).capacity() as int),
            ),
    {
        let capacity: usize = pager.page_size().data_size();
        let n: usize = self.bitmap_pages.len();
        let ghost ids = self.bitmap_pages@;
        let mut page = Page::new(self.root_page_id, PageType::BloomMeta);
        append_bytes(&mut page.data, u32_to_le_bytes(BLOOM_MAGIC).as_slice());
        append_bytes(&mut page.data, u32_to_le_bytes(BLOOM_VERSION).as_slice());
        append_bytes(&mut page.data, u64_to_le_bytes(self.num_bits as u64).as_slice());
        append_bytes(&mut page.data, u32_to_le_bytes(self.num_hash_functions as u32).as_slice());
        append_bytes(&mut page.data, zeros(4).as_slice());
        append_bytes(&mut page.data, u64_to_le_bytes(self.num_items as u64).as_slice());
        append_bytes(&mut page.data, u32_to_le_bytes(n as u32).as_slice());
        append_bytes(&mut page.data, zeros(36).as_slice());
        let ghost header = header_bytes(
            self.num_bits as u64,
            self.num_hash_functions as u32,
            self.num_items as u64,
            ids.len() as u32,
        );
        proof {
            assert(page.data@ =~= header);
        }
        let mut i: usize = 0;
        assert(ids.take(0) =~= Seq::empty());
        while i < n
            invariant
                i <= n == ids.len(),
                ids == self.bitmap_pages@,
                page.id == self.root_page_id,
                page.page_type == PageType::BloomMeta,
                page.data@ == header + id_bytes(ids.take(i as int)),
            decreases n - i,
        {
            proof {
                assert(ids.take(i + 1).drop_last() =~= ids.take(i as int));
                assert(ids.take(i + 1).last() == ids[i as int]);
            }
            append_bytes(&mut page.data, u64_to_le_bytes(self.bitmap_pages[i].0).as_slice());
            assert(page.data@ =~= header + id_bytes(ids.take(i + 1)));
            i += 1;
        }
        assert(ids.take(n as int) =~= ids);
        let padding = zeros(capacity - METADATA_SIZE - 8 * n);
        append_bytes(&mut page.data, padding.as_slice());
        proof {
            lemma_auto_spec_u32_to_from_le_bytes();
            lemma_auto_spec_u64_to_from_le_bytes();
            lemma_id_bytes_len(ids);
            assert(header.len() == 72);
            assert(page.data@ =~= self.root_image(capacity as int).data);
        }
        match pager.write_page(page) {
            Ok(()) => Ok(()),
            Err(e) => Err(TableError::Pager(e)),
        }
    }
}

pub proof fn lemma_place(p: int, n: int, per_page: int)
    requires
        0 <= p < per_page * n,
        per_page > 0,
    ensures
        0 <= p / per_page < n,
        0 <= p % per_page < per_page,
{
    assert(0 <= p / per_page < n) by (nonlinear_arith)
        requires
            0 <= p < per_page * n,
            per_page > 0,
    ;
    assert(0 <= p % per_page < per_page) by (nonlinear_arith)
        requires
            per_page > 0,
    ;
}

proof fn lemma_same_place(p: int, q: int, per_page: int)
    requires
        per_page > 0,
    ensures
        p == q <==> p / per_page == q / per_page && p % per_page == q % per_page,
{
    lemma_fundamental_div_mod(p, per_page);
    lemma_fundamental_div_mod(q, per_page);
}

impl PagedBloomFilter {
    fn write_zeros(pager: &mut Pager, id: PageId) -> (r: TableResult<()>)
        requires
            old(pager).wf(),
            old(pager).pages().contains_key(id.0),
        ensures
            r is Ok,
            final(pager).wf(),
            final(pager).same_meta(old(pager)),
            final(pager).pages() == old(pager).pages().insert(
                id.0,
                PageView {
                    page_type: PageType::BloomData,
                    data: zero_bytes(old(pager).capacity() as int),
                },
            ),
    {
        let capacity: usize = pager.page_size().data_size();
        let page = Page { id, page_type: PageType::BloomData, data: zeros(capacity) };
        assert(page.data@ =~= zero_bytes(capacity as int));
        match pager.write_page(page) {
            Ok(()) => Ok(()),
            Err(e) => Err(TableError::Pager(e)),
        }
    }

    /// No bit is set.
    pub open spec fn is_blank(&self, pages: Map<u64, PageView>, capacity: int) -> bool {
        forall|i: int|
            0 <= i < self.bitmap_pages@.len() ==> pages.contains_key(
                (#[trigger] self.bitmap_pages@[i]).0,
            ) && pages[self.bitmap_pages@[i].0] == (PageView {
                page_type: PageType::BloomData,
                data: zero_bytes(capacity),
            })
    }

    /// An empty filter for so many items, in new pages. Without a number of hash functions it
    /// takes the one that suits the bits per key.
    pub fn new(
        table_id: TableId,
        name: String,
        pager: &mut Pager,
        num_items: usize,
        bits_per_key: usize,
        num_hash_functions: Option<usize>,
    ) -> (r: TableResult<Self>)
        requires
            old(pager).wf(),
            num_items * bits_per_key <= usize::MAX,
            METADATA_SIZE + 8 * Self::pages_for(
                num_items * bits_per_key,
                8 * old(pager).capacity() as int,
            ) <= old(pager).capacity(),
        ensures
            r is Ok,
            final(pager).wf(),
            final(pager).same_meta(old(pager)),
            r->Ok_0.wf(*final(pager)),
            r->Ok_0.table_id == table_id,
            r->Ok_0.name == name,
            r->Ok_0.num_bits == num_items * bits_per_key,
            r->Ok_0.num_hash_functions == (match num_hash_functions {
                Some(n) => n as int,
                None => best_hash_count(bits_per_key as int),
            }),
            r->Ok_0.num_items == 0,
            r->Ok_0.bitmap_pages@.len() == Self::pages_for(
                num_items * bits_per_key,
                8 * old(pager).capacity() as int,
            ),
            r->Ok_0.is_blank(final(pager).pages(), old(pager).capacity() as int),
            final(pager).pages()[r->Ok_0.root_page_id.0] == r->Ok_0.root_image(
                old(pager).capacity() as int,
            ),
            !old(pager).pages().contains_key(r->Ok_0.root_page_id.0),
            r->Ok_0.others_kept(old(pager).pages(), final(pager).pages()),
    {
        let num_bits: usize = num_items * bits_per_key;
        let k: usize = match num_hash_functions {
            Some(n) => n,
            None => hash_count(bits_per_key),
        };
        let ghost pages0 = pager.pages();
        let root_page_id = pager.allocate_page(PageType::BloomMeta);
        let capacity: usize = pager.page_size().data_size();
        let bits_per_page: usize = capacity * 8;
        assert(num_bits as int / bits_per_page as int <= num_bits as int / 2) by (nonlinear_arith)
            requires
                bits_per_page >= 2,
                num_bits >= 0,
        ;
        let num_pages: usize = if num_bits % bits_per_page == 0 {
            num_bits / bits_per_page
        } else {
            num_bits / bits_per_page + 1
        };
        proof {
            let n = num_bits as int;
            let c = bits_per_page as int;
            assert(num_pages == (n + c - 1) / c && n <= c * num_pages) by (nonlinear_arith)
                requires
                    c > 0,
                    n >= 0,
                    num_pages == (if n % c == 0 {
                        n / c
                    } else {
                        n / c + 1
                    }),
            ;
        }
        let mut bitmap_pages: Vec<PageId> = Vec::new();
        let mut i: usize = 0;
        while i < num_pages
            invariant
                i <= num_pages,
                pager.wf(),
                pager.same_meta(old(pager)),
                capacity == pager.capacity(),
                bitmap_pages@.len() == i,
                pager.pages().contains_key(root_page_id.0),
                bitmap_pages@.no_duplicates(),
                !pages0.contains_key(root_page_id.0),
                forall|j: int|
                    0 <= j < i ==> pager.pages().contains_key((#[trigger] bitmap_pages@[j]).0)
                        && pager.pages()[bitmap_pages@[j].0] == (PageView {
                        page_type: PageType::BloomData,
                        data: zero_bytes(capacity as int),
                    }) && bitmap_pages@[j] != root_page_id && !pages0.contains_key(
                        bitmap_pages@[j].0,
                    ),
                forall|id: u64| #[trigger]
                    pages0.contains_key(id) ==> pager.pages().contains_key(id) && pager.pages()[id]
                        == pages0[id],
            decreases num_pages - i,
        {
            let ghost before = bitmap_pages@;
            let ghost pages1 = pager.pages();
            let id = pager.allocate_page(PageType::BloomData);
            bitmap_pages.push(id);
            let _ = Self::write_zeros(pager, id);
            proof {
                assert(bitmap_pages@ == before.push(id));
                assert forall|j: int| 0 <= j < i implies (#[trigger] before[j]).0 != id.0 by {
                    assert(pages1.contains_key(before[j].0));
                }
                assert forall|j: int| 0 <= j < i + 1 implies pager.pages().contains_key(
                    (#[trigger] bitmap_pages@[j]).0,
                ) && pager.pages()[bitmap_pages@[j].0] == (PageView {
                    page_type: PageType::BloomData,
                    data: zero_bytes(capacity as int),
                }) && bitmap_pages@[j] != root_page_id && !pages0.contains_key(
                    bitmap_pages@[j].0,
                ) by {
                    if j < i {
                        assert(before[j] == bitmap_pages@[j]);
                        assert(pages1.contains_key(before[j].0));
                    }
                }
            }
            i += 1;
        }
        let filter = PagedBloomFilter {
            table_id,
            name,
            root_page_id,
            num_bits,
            num_hash_functions: k,
            num_items: 0,
            bitmap_pages,
            bits_per_page,
        };
        let _ = filter.write_metadata(pager);
        proof {
            assert forall|j: int| 0 <= j < num_pages implies pager.pages().contains_key(
                (#[trigger] filter.bitmap_pages@[j]).0,
            ) && pager.pages()[filter.bitmap_pages@[j].0] == (PageView {
                page_type: PageType::BloomData,
                data: zero_bytes(capacity as int),
            }) by {
                assert(filter.bitmap_pages@[j] != root_page_id);
            }
        }
        Ok(filter)
    }

    /// Whether an opened filter can be used: its pages are there, and they have room for its bits.
    pub fn is_sound(&self, pager: &Pager) -> (r: bool)
        requires
            pager.wf(),
        ensures
            r == self.wf(*pager),
    {
        let ghost pages = pager.pages();
        let ghost ids = self.bitmap_pages@;
        let capacity: usize = pager.page_size().data_size();
        let n: usize = self.bitmap_pages.len();
        if self.bits_per_page != 8 * capacity {
            return false;
        }
        if METADATA_SIZE as u128 + 8 * n as u128 > capacity as u128 {
            return false;
        }
        assert(0 <= self.bits_per_page * n <= 600_000 * 10_000) by (nonlinear_arith)
            requires
                0 <= self.bits_per_page <= 600_000,
                0 <= n <= 10_000,
        ;
        if self.num_bits as u64 > self.bits_per_page as u64 * n as u64 {
            return false;
        }
        if pager.read_page(self.root_page_id).is_err() {
            return false;
        }
        let mut i: usize = 0;
        while i < n
            invariant
                pager.wf(),
                pages == pager.pages(),
                ids == self.bitmap_pages@,
                n == ids.len(),
                i <= n,
                capacity == pager.capacity(),
                forall|j: int|
                    0 <= j < i ==> pages.contains_key((#[trigger] ids[j]).0)
                        && pages[ids[j].0].data.len() == capacity && ids[j] != self.root_page_id,
                forall|j: int, k: int| 0 <= j < k < i ==> ids[j] != ids[k],
            decreases n - i,
        {
            let id = self.bitmap_pages[i];
            match pager.read_page(id) {
                Ok(page) => {
                    if page.data.len() != capacity {
                        return false;
                    }
                },
                Err(_) => return false,
            }
            if id.0 == self.root_page_id.0 {
                return false;
            }
            let mut k: usize = 0;
            while k < i
                invariant
                    ids == self.bitmap_pages@,
                    k <= i < ids.len(),
                    id == ids[i as int],
                    forall|j: int| 0 <= j < k ==> ids[j] != id,
                decreases i - k,
            {
                if self.bitmap_pages[k].0 == id.0 {
                    proof {
                        assert(ids[k as int] == ids[i as int]);
                        assert(!ids.no_duplicates());
                    }
                    return false;
                }
                k = k + 1;
            }
            i = i + 1;
        }
        true
    }

    /// The filter whose root page is given.
    pub fn open(table_id: TableId, name: String, pager: &Pager, root_page_id: PageId) -> (r:
        TableResult<Self>)
        requires
            pager.wf(),
        ensures
            r is Ok <==> pager.pages().contains_key(root_page_id.0) && parse_root(
                pager.pages()[root_page_id.0].data,
                root_page_id,
            ) is Ok,
            r matches Err(e) ==> e == (if pager.pages().contains_key(root_page_id.0) {
                parse_root(pager.pages()[root_page_id.0].data, root_page_id)->Err_0
            } else {
                TableError::Pager(PagerError::PageNotFound(root_page_id))
            }),
            r matches Ok(f) ==> {
                let root = parse_root(pager.pages()[root_page_id.0].data, root_page_id)->Ok_0;
                &&& f.table_id == table_id
                &&& f.name == name
                &&& f.root_page_id == root_page_id
                &&& f.num_bits == root.num_bits as usize
                &&& f.num_hash_functions == root.num_hash_functions as usize
                &&& f.num_items == root.num_items as usize
                &&& f.bitmap_pages@ == root.bitmap_pages
                &&& f.bits_per_page == 8 * pager.capacity()
            },
    {
        let page = match pager.read_page(root_page_id) {
            Ok(p) => p,
            Err(e) => return Err(TableError::Pager(e)),
        };
        let data = page.data.as_slice();
        let ghost d = page.data@;
        if data.len() < METADATA_SIZE {
            return Err(TableError::Corruption(Corruption::ShortBloomPage(root_page_id)));
        }
        let magic: u32 = u32_from_le_bytes(vstd::slice::slice_subrange(data, 0, 4));
        if magic != BLOOM_MAGIC {
            return Err(TableError::Corruption(Corruption::InvalidBloomMagic(magic)));
        }
        let version: u32 = u32_from_le_bytes(vstd::slice::slice_subrange(data, 4, 8));
        if version != BLOOM_VERSION {
            return Err(TableError::InvalidFormatVersion(version));
        }
        let num_bits: u64 = u64_from_le_bytes(vstd::slice::slice_subrange(data, 8, 16));
        let k: u32 = u32_from_le_bytes(vstd::slice::slice_subrange(data, 16, 20));
        let num_items: u64 = u64_from_le_bytes(vstd::slice::slice_subrange(data, 24, 32));
        let n: u32 = u32_from_le_bytes(vstd::slice::slice_subrange(data, 32, 36));
        if 8 * (n as u64) > (data.len() - METADATA_SIZE) as u64 {
            return Err(TableError::Corruption(Corruption::ShortBloomPage(root_page_id)));
        }
        let mut bitmap_pages: Vec<PageId> = Vec::new();
        let mut i: usize = 0;
        let count: usize = n as usize;
        while i < count
            invariant
                i <= count,
                data@ == d,
                METADATA_SIZE + 8 * count <= d.len() <= usize::MAX,
                bitmap_pages@.len() == i,
                forall|j: int|
                    0 <= j < i ==> #[trigger] bitmap_pages@[j] == PageId(
                        spec_u64_from_le_bytes(
                            d.subrange(METADATA_SIZE + 8 * j, METADATA_SIZE + 8 * j + 8),
                        ),
                    ),
            decreases count - i,
        {
            let at: usize = METADATA_SIZE + 8 * i;
            let id: u64 = u64_from_le_bytes(vstd::slice::slice_subrange(data, at, at + 8));
            bitmap_pages.push(PageId(id));
            i += 1;
        }
        proof {
            assert(bitmap_pages@ =~= parse_root(d, root_page_id)->Ok_0.bitmap_pages);
        }
        Ok(
            PagedBloomFilter {
                table_id,
                name,
                root_page_id,
                num_bits: num_bits as usize,
                num_hash_functions: k as usize,
                num_items: num_items as usize,
                bitmap_pages,
                bits_per_page: pager.page_size().data_size() * 8,
            },
        )
    }

    fn set_page_bit(&self, pager: &mut Pager, pos: usize) -> (r: TableResult<()>)
        requires
            old(pager).wf(),
            self.wf(*old(pager)),
            pos < self.num_bits,
        ensures
            r is Ok,
            final(pager).wf(),
            final(pager).same_meta(old(pager)),
            self.wf(*final(pager)),
            forall|p: int|
                0 <= p < self.room() ==> #[trigger] self.bit_at(
                    final(pager).pages(),
                    p,
                ) == (p == pos || self.bit_at(old(pager).pages(), p)),
            self.others_kept(old(pager).pages(), final(pager).pages()),
            final(pager).pages()[self.root_page_id.0] == old(pager).pages()[self.root_page_id.0],
    {
        let ghost pages0 = pager.pages();
        let ghost ids = self.bitmap_pages@;
        let ghost per = self.bits_per_page as int;
        proof {
            lemma_place(pos as int, ids.len() as int, per);
        }
        let page_idx: usize = pos / self.bits_per_page;
        let bit_in_page: usize = pos % self.bits_per_page;
        let id = self.bitmap_pages[page_idx];
        assert(pages0.contains_key(ids[page_idx as int].0));
        let mut page = match pager.read_page(id) {
            Ok(p) => p,
            Err(e) => return Err(TableError::Pager(e)),
        };
        let ghost data0 = page.data@;
        set_bit(&mut page.data, bit_in_page);
        let ghost data1 = page.data@;
        let written = pager.write_page(page);
        proof {
            assert(written is Ok);
            let pages1 = pager.pages();
            assert forall|i: int| 0 <= i < ids.len() implies pages1.contains_key(
                (#[trigger] ids[i]).0,
            ) && pages1[ids[i].0].data.len() == pager.capacity() && ids[i]
                != self.root_page_id by {
                assert(pages0.contains_key(ids[i].0));
            }
            assert forall|p: int| 0 <= p < self.room() implies #[trigger] self.bit_at(
                pages1,
                p,
            ) == (p == pos || self.bit_at(pages0, p)) by {
                lemma_place(p, ids.len() as int, per);
                lemma_same_place(p, pos as int, per);
                let q = p / per;
                let r = p % per;
                assert(pages0.contains_key(ids[q].0));
                if q == page_idx {
                    assert(bit(data1, r) == (r == bit_in_page || bit(data0, r)));
                } else {
                    assert(ids[q] != ids[page_idx as int]);
                    assert(ids[q].0 != id.0);
                }
            }
            assert(ids.contains(PageId(id.0))) by {
                assert(ids[page_idx as int] == PageId(id.0));
            }
        }
        Ok(())
    }

    /// The number of bits that the pages have room for.
    pub open spec fn room(&self) -> int {
        self.bits_per_page * self.bitmap_pages@.len()
    }

    /// The bits are those of before, and those that the first `k` hash functions give to the key.
    pub open spec fn bits_added(
        &self,
        after: Map<u64, PageView>,
        before: Map<u64, PageView>,
        key: Seq<u8>,
        k: int,
    ) -> bool {
        forall|p: int|
            0 <= p < self.room() ==> #[trigger] self.bit_at(after, p) == (self.bit_at(before, p)
                || is_bit_of(key, k, self.num_bits as int, p))
    }

    proof fn lemma_one_more(
        &self,
        after: Map<u64, PageView>,
        mid: Map<u64, PageView>,
        before: Map<u64, PageView>,
        key: Seq<u8>,
        i: int,
    )
        requires
            0 <= i,
            self.bits_added(mid, before, key, i),
            forall|p: int|
                0 <= p < self.room() ==> #[trigger] self.bit_at(after, p) == (p == bit_position(
                    key,
                    i,
                    self.num_bits as int,
                ) || self.bit_at(mid, p)),
        ensures
            self.bits_added(after, before, key, i + 1),
    {
        let n = self.num_bits as int;
        let pos = bit_position(key, i, n);
        assert forall|p: int| 0 <= p < self.room() implies #[trigger] self.bit_at(after, p) == (
        self.bit_at(before, p) || is_bit_of(key, i + 1, n, p)) by {
            assert(self.bit_at(mid, p) == (self.bit_at(before, p) || is_bit_of(key, i, n, p)));
            if p == pos {
                assert(bit_position(key, i, n) == p);
            }
            if is_bit_of(key, i + 1, n, p) && p != pos {
                let j = choose|j: int| 0 <= j < i + 1 && #[trigger] bit_position(key, j, n) == p;
                assert(j < i);
                assert(is_bit_of(key, i, n, p));
            }
            if is_bit_of(key, i, n, p) {
                let j = choose|j: int| 0 <= j < i && #[trigger] bit_position(key, j, n) == p;
                assert(is_bit_of(key, i + 1, n, p));
            }
        }
    }

    /// A key whose bits were added is found, and so is every key that was found before.
    pub proof fn law_no_false_negatives(
        &self,
        after: Map<u64, PageView>,
        before: Map<u64, PageView>,
        key: Seq<u8>,
        other: Seq<u8>,
    )
        requires
            self.num_bits <= self.room(),
            self.can_hash(),
            self.bits_added(after, before, key, self.num_hash_functions as int),
        ensures
            self.holds(after, key),
            self.holds(before, other) ==> self.holds(after, other),
    {
        let n = self.num_bits as int;
        let k = self.num_hash_functions as int;
        assert forall|j: int| 0 <= j < k implies self.bit_at(
            after,
            #[trigger] bit_position(key, j, n),
        ) by {
            let p = bit_position(key, j, n);
            assert(is_bit_of(key, k, n, p));
            assert(0 <= p < n);
            assert(self.bit_at(after, p) == (self.bit_at(before, p) || is_bit_of(key, k, n, p)));
        }
        if self.holds(before, other) {
            assert forall|j: int| 0 <= j < k implies self.bit_at(
                after,
                #[trigger] bit_position(other, j, n),
            ) by {
                let p = bit_position(other, j, n);
                assert(0 <= p < n);
                assert(self.bit_at(before, p));
                assert(self.bit_at(after, p) == (self.bit_at(before, p) || is_bit_of(key, k, n, p)));
            }
        }
    }

    proof fn lemma_root_written(&self, before: Pager, after: Pager)
        requires
            self.wf(before),
            after.capacity() == before.capacity(),
            after.pages() == before.pages().insert(
                self.root_page_id.0,
                after.pages()[self.root_page_id.0],
            ),
        ensures
            self.wf(after),
            forall|p: int|
                0 <= p < self.room() ==> #[trigger] self.bit_at(after.pages(), p) == self.bit_at(
                    before.pages(),
                    p,
                ),
    {
        let ids = self.bitmap_pages@;
        let per = self.bits_per_page as int;
        assert forall|j: int| 0 <= j < ids.len() implies after.pages().contains_key(
            (#[trigger] ids[j]).0,
        ) && after.pages()[ids[j].0].data.len() == after.capacity() && ids[j]
            != self.root_page_id by {
            assert(before.pages().contains_key(ids[j].0));
        }
        assert forall|p: int| 0 <= p < self.room() implies #[trigger] self.bit_at(after.pages(), p)
            == self.bit_at(before.pages(), p) by {
            lemma_place(p, ids.len() as int, per);
            assert(ids[p / per] != self.root_page_id);
        }
    }

    fn set_key_bits(&self, pager: &mut Pager, key: &[u8])
        requires
            old(pager).wf(),
            self.wf(*old(pager)),
            self.can_hash(),
        ensures
            final(pager).wf(),
            final(pager).same_meta(old(pager)),
            self.wf(*final(pager)),
            self.bits_added(
                final(pager).pages(),
                old(pager).pages(),
                key@,
                self.num_hash_functions as int,
            ),
            self.others_kept(old(pager).pages(), final(pager).pages()),
    {
        let (h1, h2) = hash_key(key);
        let ghost pages0 = pager.pages();
        let mut i: usize = 0;
        while i < self.num_hash_functions
            invariant
                i <= self.num_hash_functions,
                h1 == crate::bloom::bits::fnv1a(key@),
                h2 == crate::bloom::bits::multiplicative(key@),
                pager.wf(),
                pager.same_meta(old(pager)),
                self.wf(*pager),
                self.can_hash(),
                self.bits_added(pager.pages(), pages0, key@, i as int),
                self.others_kept(pages0, pager.pages()),
            decreases self.num_hash_functions - i,
        {
            let ghost mid = pager.pages();
            let pos: usize = position_of(h1, h2, i, self.num_bits, Ghost(key@));
            let _ = self.set_page_bit(pager, pos);
            proof {
                self.lemma_one_more(pager.pages(), mid, pages0, key@, i as int);
            }
            i += 1;
        }
    }

    /// Sets the bits of a key and counts it in the root page.
    pub fn insert(&mut self, pager: &mut Pager, key: &[u8]) -> (r: TableResult<()>)
        requires
            old(pager).wf(),
            old(self).wf(*old(pager)),
            old(self).can_hash(),
            old(self).num_items < usize::MAX,
        ensures
            r is Ok,
            final(pager).wf(),
            final(pager).same_meta(old(pager)),
            final(self).wf(*final(pager)),
            final(self).same_shape(old(self)),
            final(self).num_items == old(self).num_items + 1,
            final(self).bits_added(
                final(pager).pages(),
                old(pager).pages(),
                key@,
                old(self).num_hash_functions as int,
            ),
            final(self).holds(final(pager).pages(), key@),
            final(pager).pages()[old(self).root_page_id.0] == final(self).root_image(
                old(pager).capacity() as int,
            ),
            old(self).others_kept(old(pager).pages(), final(pager).pages()),
    {
        let ghost pages0 = pager.pages();
        self.set_key_bits(pager, key);
        let ghost mid = *pager;
        let ghost filter = *self;
        self.num_items = self.num_items + 1;
        let _ = self.write_metadata(pager);
        proof {
            let k = self.num_hash_functions as int;
            let n = self.num_bits as int;
            assert(self.wf(mid));
            self.lemma_root_written(mid, *pager);
            assert forall|p: int| 0 <= p < self.room() implies #[trigger] self.bit_at(
                pager.pages(),
                p,
            ) == (self.bit_at(pages0, p) || is_bit_of(key@, k, n, p)) by {
                assert(self.bit_at(mid.pages(), p) == filter.bit_at(mid.pages(), p));
                assert(self.bit_at(pages0, p) == filter.bit_at(pages0, p));
            }
            self.law_no_false_negatives(pager.pages(), pages0, key@, key@);
        }
        Ok(())
    }

    /// Whether the key may be present: all its bits are set.
    pub fn contains(&self, pager: &Pager, key: &[u8]) -> (r: TableResult<bool>)
        requires
            pager.wf(),
            self.wf(*pager),
            self.can_hash(),
        ensures
            r == Ok::<bool, TableError>(self.holds(pager.pages(), key@)),
    {
        let (h1, h2) = hash_key(key);
        let ghost ids = self.bitmap_pages@;
        let ghost per = self.bits_per_page as int;
        let mut i: usize = 0;
        while i < self.num_hash_functions
            invariant
                i <= self.num_hash_functions,
                h1 == crate::bloom::bits::fnv1a(key@),
                h2 == crate::bloom::bits::multiplicative(key@),
                ids == self.bitmap_pages@,
                per == self.bits_per_page,
                pager.wf(),
                self.wf(*pager),
                self.can_hash(),
                forall|j: int|
                    0 <= j < i ==> self.bit_at(
                        pager.pages(),
                        #[trigger] bit_position(key@, j, self.num_bits as int),
                    ),
            decreases self.num_hash_functions - i,
        {
            let pos: usize = position_of(h1, h2, i, self.num_bits, Ghost(key@));
            proof {
                lemma_place(pos as int, ids.len() as int, per);
                assert(pager.pages().contains_key(ids[pos as int / per].0));
            }
            let id = self.bitmap_pages[pos / self.bits_per_page];
            let page = match pager.read_page(id) {
                Ok(p) => p,
                Err(e) => return Err(TableError::Pager(e)),
            };
            if !get_bit(&page.data, pos % self.bits_per_page) {
                assert(!self.bit_at(
                    pager.pages(),
                    bit_position(key@, i as int, self.num_bits as int),
                ));
                return Ok(false);
            }
            i += 1;
        }
        Ok(true)
    }

    /// Clears all bits.
    pub fn clear(&mut self, pager: &mut Pager) -> (r: TableResult<()>)
        requires
            old(pager).wf(),
            old(self).wf(*old(pager)),
        ensures
            r is Ok,
            final(pager).wf(),
            final(pager).same_meta(old(pager)),
            final(self).wf(*final(pager)),
            final(self).same_shape(old(self)),
            final(self).num_items == 0,
            final(self).is_blank(final(pager).pages(), old(pager).capacity() as int),
            final(pager).pages()[old(self).root_page_id.0] == final(self).root_image(
                old(pager).capacity() as int,
            ),
            old(self).others_kept(old(pager).pages(), final(pager).pages()),
            old(self).num_bits > 0 && old(self).num_hash_functions > 0 ==> forall|key: Seq<u8>|
                !#[trigger] final(self).holds(final(pager).pages(), key),
    {
        let ghost pages0 = pager.pages();
        let ghost ids = self.bitmap_pages@;
        let ghost capacity = pager.capacity() as int;
        let mut i: usize = 0;
        while i < self.bitmap_pages.len()
            invariant
                i <= ids.len(),
                *self == *old(self),
                ids == self.bitmap_pages@,
                capacity == pager.capacity(),
                pager.wf(),
                pager.same_meta(old(pager)),
                self.wf(*pager),
                forall|j: int|
                    0 <= j < i ==> pager.pages().contains_key((#[trigger] ids[j]).0)
                        && pager.pages()[ids[j].0] == (PageView {
                        page_type: PageType::BloomData,
                        data: zero_bytes(capacity),
                    }),
                self.others_kept(pages0, pager.pages()),
            decreases ids.len() - i,
        {
            let ghost mid = pager.pages();
            let id = self.bitmap_pages[i];
            assert(mid.contains_key(ids[i as int].0));
            let _ = Self::write_zeros(pager, id);
            proof {
                assert forall|j: int| 0 <= j < ids.len() implies pager.pages().contains_key(
                    (#[trigger] ids[j]).0,
                ) && pager.pages()[ids[j].0].data.len() == pager.capacity() && ids[j]
                    != self.root_page_id by {
                    assert(mid.contains_key(ids[j].0));
                }
                assert(ids.contains(PageId(id.0)));
            }
            i += 1;
        }
        self.num_items = 0;
        let ghost mid = pager.pages();
        let _ = self.write_metadata(pager);
        proof {
            assert forall|j: int| 0 <= j < ids.len() implies pager.pages().contains_key(
                (#[trigger] ids[j]).0,
            ) && pager.pages()[ids[j].0] == (PageView {
                page_type: PageType::BloomData,
                data: zero_bytes(capacity),
            }) by {
                assert(mid.contains_key(ids[j].0));
                assert(ids[j] != self.root_page_id);
            }
            if self.num_bits > 0 && self.num_hash_functions > 0 {
                assert forall|key: Seq<u8>| !#[trigger] self.holds(pager.pages(), key) by {
                    law_blank_filter_holds_nothing(*self, *pager, key);
                }
            }
        }
        Ok(())
    }

    /// The root page.
    pub fn root_page_id(&self) -> (r: PageId)
        ensures
            r == self.root_page_id,
    {
        self.root_page_id
    }
}

/// A filter without bits set takes no key for present, as long as it hashes at all.
pub proof fn law_blank_filter_holds_nothing(filter: PagedBloomFilter, pager: Pager, key: Seq<u8>)
    requires
        filter.wf(pager),
        filter.num_bits > 0,
        filter.num_hash_functions > 0,
        filter.is_blank(pager.pages(), pager.capacity() as int),
    ensures
        !filter.holds(pager.pages(), key),
{
    let p = bit_position(key, 0, filter.num_bits as int);
    let ids = filter.bitmap_pages@;
    let per = filter.bits_per_page as int;
    lemma_place(p, ids.len() as int, per);
    let r = p % per;
    let data = pager.pages()[ids[p / per].0].data;
    assert(pager.pages()[ids[p / per].0] == (PageView {
        page_type: PageType::BloomData,
        data: zero_bytes(pager.capacity() as int),
    }));
    lemma_zero_byte((r % 8) as u8);
    assert(data[r / 8] == 0);
    assert(!filter.bit_at(pager.pages(), p));
}

/// A filter that is opened again takes the same keys for present.
pub proof fn law_reopened_filter_holds_the_same(
    filter: PagedBloomFilter,
    opened: PagedBloomFilter,
    pager: Pager,
    key: Seq<u8>,
)
    requires
        filter.wf(pager),
        filter.num_hash_functions <= u32::MAX,
        pager.pages()[filter.root_page_id.0] == filter.root_image(pager.capacity() as int),
        opened.root_page_id == filter.root_page_id,
        opened.bits_per_page == 8 * pager.capacity(),
        ({
            let root = parse_root(
                pager.pages()[filter.root_page_id.0].data,
                filter.root_page_id,
            )->Ok_0;
            &&& opened.num_bits == root.num_bits as usize
            &&& opened.num_hash_functions == root.num_hash_functions as usize
            &&& opened.num_items == root.num_items as usize
            &&& opened.bitmap_pages@ == root.bitmap_pages
        }),
    ensures
        parse_root(pager.pages()[filter.root_page_id.0].data, filter.root_page_id) is Ok,
        opened.wf(pager),
        opened.num_items == filter.num_items,
        opened.holds(pager.pages(), key) == filter.holds(pager.pages(), key),
{
    law_root_is_read_back(
        filter.num_bits as u64,
        filter.num_hash_functions as u32,
        filter.num_items as u64,
        filter.bitmap_pages@,
        pager.capacity() as int,
        filter.root_page_id,
    );
    assert forall|i: int| 0 <= i < filter.num_hash_functions implies opened.bit_at(
        pager.pages(),
        #[trigger] bit_position(key, i, filter.num_bits as int),
    ) == filter.bit_at(pager.pages(), bit_position(key, i, filter.num_bits as int)) by {}
}

/// A filter that was cleared takes no key for present, neither as it stands nor when it is opened
/// again, and counts no items.
pub proof fn law_cleared_filter_holds_nothing(
    filter: PagedBloomFilter,
    opened: PagedBloomFilter,
    pager: Pager,
    key: Seq<u8>,
)
    requires
        filter.wf(pager),
        filter.num_items == 0,
        filter.num_bits > 0,
        0 < filter.num_hash_functions <= u32::MAX,
        filter.is_blank(pager.pages(), pager.capacity() as int),
        pager.pages()[filter.root_page_id.0] == filter.root_image(pager.capacity() as int),
        opened.root_page_id == filter.root_page_id,
        opened.bits_per_page == 8 * pager.capacity(),
        ({
            let root = parse_root(
                pager.pages()[filter.root_page_id.0].data,
                filter.root_page_id,
            )->Ok_0;
            &&& opened.num_bits == root.num_bits as usize
            &&& opened.num_hash_functions == root.num_hash_functions as usize
            &&& opened.num_items == root.num_items as usize
            &&& opened.bitmap_pages@ == root.bitmap_pages
        }),
    ensures
        !filter.holds(pager.pages(), key),
        !opened.holds(pager.pages(), key),
        opened.num_items == 0,
{
    law_blank_filter_holds_nothing(filter, pager, key);
    law_reopened_filter_holds_the_same(filter, opened, pager, key);
}

impl PagedBloomFilter {
    /// The identifier of the table.
    pub fn table_id(&self) -> (r: TableId)
        ensures
            r == self.table_id,
    {
        self.table_id
    }

    /// The name of the table.
    pub fn name(&self) -> (r: &str)
        ensures
            r@ == self.name@,
    {
        self.name.as_str()
    }

    /// The engine of the table.
    pub fn kind(&self) -> (r: TableEngineKind)
        ensures
            r == TableEngineKind::Bloom,
    {
        TableEngineKind::Bloom
    }

    /// What the table can do.
    pub fn capabilities(&self) -> (r: TableCapabilities)
        ensures
            r == (TableCapabilities {
                ordered: false,
                point_lookup: true,
                prefix_scan: false,
                reverse_scan: false,
                range_delete: false,
                merge_operator: false,
                mvcc_native: false,
                append_optimized: false,
                memory_resident: false,
                disk_resident: true,
                supports_compression: false,
                supports_encryption: false,
            }),
    {
        TableCapabilities {
            ordered: false,
            point_lookup: true,
            prefix_scan: false,
            reverse_scan: false,
            range_delete: false,
            merge_operator: false,
            mvcc_native: false,
            append_optimized: false,
            memory_resident: false,
            disk_resident: true,
            supports_compression: false,
            supports_encryption: false,
        }
    }

    fn size_bytes(&self, pager: &Pager) -> (r: u64)
        requires
            self.wf(*pager),
        ensures
            r == self.bitmap_pages@.len() * pager.size.bytes(),
    {
        let n: u64 = self.bitmap_pages.len() as u64;
        let size: u64 = pager.page_size().to_u32() as u64;
        assert(n * size <= 65536 * 65536) by (nonlinear_arith)
            requires
                n <= 65536,
                size <= 65536,
        ;
        n * size
    }

    /// What is known of the table's contents.
    pub fn stats(&self, pager: &Pager) -> (r: TableResult<TableStatistics>)
        requires
            self.wf(*pager),
        ensures
            r == Ok::<TableStatistics, TableError>(
                TableStatistics {
                    row_count: Some(self.num_items as u64),
                    page_count: None,
                    total_size_bytes: Some(
                        (self.bitmap_pages@.len() * pager.size.bytes()) as u64,
                    ),
                    key_stats: None,
                    value_stats: None,
                    last_updated_lsn: None,
                },
            ),
    {
        Ok(
            TableStatistics {
                row_count: Some(self.num_items as u64),
                page_count: None,
                total_size_bytes: Some(self.size_bytes(pager)),
                key_stats: None,
                value_stats: None,
                last_updated_lsn: None,
            },
        )
    }

    /// What the table can do as a filter.
    pub fn specialty_capabilities(&self) -> (r: SpecialtyTableCapabilities)
        ensures
            r == (SpecialtyTableCapabilities {
                exact: false,
                approximate: true,
                ordered: false,
                sparse: false,
                supports_delete: false,
                supports_range_query: false,
                supports_prefix_query: false,
                supports_scoring: false,
                supports_incremental_rebuild: false,
                may_be_stale: false,
            }),
    {
        SpecialtyTableCapabilities {
            exact: false,
            approximate: true,
            ordered: false,
            sparse: false,
            supports_delete: false,
            supports_range_query: false,
            supports_prefix_query: false,
            supports_scoring: false,
            supports_incremental_rebuild: false,
            may_be_stale: false,
        }
    }

    /// Sets the bits of a key, whatever the transaction.
    pub fn insert_key(
        &mut self,
        pager: &mut Pager,
        key: &[u8],
        _tx_id: TransactionId,
        _commit_lsn: LogSequenceNumber,
    ) -> (r: TableResult<()>)
        requires
            old(pager).wf(),
            old(self).wf(*old(pager)),
            old(self).can_hash(),
            old(self).num_items < usize::MAX,
        ensures
            r is Ok,
            final(pager).wf(),
            final(pager).same_meta(old(pager)),
            final(self).wf(*final(pager)),
            final(self).same_shape(old(self)),
            final(self).num_items == old(self).num_items + 1,
            final(self).bits_added(
                final(pager).pages(),
                old(pager).pages(),
                key@,
                old(self).num_hash_functions as int,
            ),
    {
        match self.insert(pager, key) {
            Ok(()) => Ok(()),
            Err(e) => Err(e),
        }
    }

    /// Whether the key may be present.
    pub fn might_contain(&self, pager: &Pager, key: &[u8]) -> (r: TableResult<bool>)
        requires
            pager.wf(),
            self.wf(*pager),
            self.can_hash(),
        ensures
            r == Ok::<bool, TableError>(self.holds(pager.pages(), key@)),
    {
        self.contains(pager, key)
    }

    /// What is known of the filter's contents.
    pub fn specialty_stats(&self, pager: &Pager) -> (r: TableResult<SpecialtyTableStats>)
        requires
            self.wf(*pager),
        ensures
            r == Ok::<SpecialtyTableStats, TableError>(
                SpecialtyTableStats {
                    entry_count: Some(self.num_items as u64),
                    size_bytes: Some((self.bitmap_pages@.len() * pager.size.bytes()) as u64),
                    distinct_keys: Some(self.num_items as u64),
                    stale_entries: Some(0),
                    last_updated_lsn: None,
                },
            ),
    {
        Ok(
            SpecialtyTableStats {
                entry_count: Some(self.num_items as u64),
                size_bytes: Some(self.size_bytes(pager)),
                distinct_keys: Some(self.num_items as u64),
                stale_entries: Some(0),
                last_updated_lsn: None,
            },
        )
    }

    /// Checks that there are as many pages as the number of bits asks for. The report warns of a
    /// high false positive rate where the caller has found one.
    pub fn verify(&self, rate_is_high: bool) -> (r: TableResult<VerificationReport>)
        requires
            self.bits_per_page > 1,
        ensures
            r is Ok,
            r->Ok_0.checked_items == 1,
            r->Ok_0.errors@ == ({
                let expected = Self::pages_for(self.num_bits as int, self.bits_per_page as int);
                if self.bitmap_pages@.len() == expected {
                    Seq::empty()
                } else {
                    seq![
                        ConsistencyError {
                            error_type: ConsistencyErrorType::InvalidPointer,
                            expected: expected as u64,
                            found: self.bitmap_pages@.len() as u64,
                        },
                    ]
                }
            }),
            r->Ok_0.warnings@.len() == (if self.num_items > 0 && rate_is_high {
                1nat
            } else {
                0nat
            }),
            r->Ok_0.warnings@.len() == 1 ==> r->Ok_0.warnings@[0].location@ == "bloom_filter"@
                && r->Ok_0.warnings@[0].detail == self.num_items as u64,
    {
        let mut errors: Vec<ConsistencyError> = Vec::new();
        let mut warnings: Vec<ConsistencyWarning> = Vec::new();
        let ghost n = self.num_bits as int;
        let ghost c = self.bits_per_page as int;
        assert(n / c <= n / 2) by (nonlinear_arith)
            requires
                c >= 2,
                n >= 0,
        ;
        let expected: usize = if self.num_bits % self.bits_per_page == 0 {
            self.num_bits / self.bits_per_page
        } else {
            self.num_bits / self.bits_per_page + 1
        };
        assert(expected == (n + c - 1) / c) by (nonlinear_arith)
            requires
                c > 0,
                n >= 0,
                expected == (if n % c == 0 {
                    n / c
                } else {
                    n / c + 1
                }),
        ;
        let found: usize = self.bitmap_pages.len();
        if found != expected {
            errors.push(
                ConsistencyError {
                    error_type: ConsistencyErrorType::InvalidPointer,
                    expected: expected as u64,
                    found: found as u64,
                },
            );
        }
        if self.num_items > 0 && rate_is_high {
            warnings.push(
                ConsistencyWarning {
                    location: "bloom_filter".to_string(),
                    detail: self.num_items as u64,
                },
            );
        }
        assert(found != expected ==> errors@ =~= seq![
            ConsistencyError {
                error_type: ConsistencyErrorType::InvalidPointer,
                expected: expected as u64,
                found: found as u64,
            },
        ]);
        Ok(VerificationReport { checked_items: 1, errors, warnings })
    }
}

} // verus!
