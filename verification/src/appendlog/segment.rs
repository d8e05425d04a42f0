//! A segment of an append log: entries in a row, flushed to pages from time to time.
use crate::bytes::{append_bytes, copy_bytes, sub_bytes};
use crate::pager::{Page, PageId, PageType, PageView, Pager, PagerError};
use crate::table::{Corruption, TableError, TableResult};
use crate::types::{value_view, LogSequenceNumber, ValueBuf};
use vstd::bytes::*;
use vstd::prelude::*;

verus! {

/// The length of the header of a segment page: the payload's length and a flag.
pub const PAGE_HEADER_SIZE: usize = 16;

/// Identifies a segment.
#[derive(Clone, Copy, Debug, PartialEq, Eq, PartialOrd, Ord, Hash, Structural)]
pub struct SegmentId(pub u64);

/// What is known of a segment.
#[derive(Clone, Copy, Debug, PartialEq, Eq, Structural)]
pub struct SegmentMetadata {
    pub id: SegmentId,
    /// When the segment was made, in seconds since 1970.
    pub created_at: u64,
    pub entry_count: u64,
    pub size: u64,
    pub first_page_id: PageId,
    pub last_page_id: PageId,
}

/// A segment as it is stored.
#[derive(Debug)]
pub struct PersistedSegment {
    pub metadata: SegmentMetadata,
    /// What was not flushed to pages yet.
    pub buffer: Vec<u8>,
    /// The pages with what was flushed, in order.
    pub flushed_pages: Vec<PageId>,
}

/// A segment.
#[derive(Debug)]
pub struct Segment {
    pub metadata: SegmentMetadata,
    pub flushed_pages: Vec<PageId>,
    pub write_buffer: Vec<u8>,
}

/// A segment as the contracts speak of it.
#[verifier::ext_equal]
pub struct SegmentView {
    pub metadata: SegmentMetadata,
    pub flushed_pages: Seq<PageId>,
    pub write_buffer: Seq<u8>,
}

impl View for Segment {
    type V = SegmentView;

    open spec fn view(&self) -> SegmentView {
        SegmentView {
            metadata: self.metadata,
            flushed_pages: self.flushed_pages@,
            write_buffer: self.write_buffer@,
        }
    }
}

impl View for PersistedSegment {
    type V = SegmentView;

    open spec fn view(&self) -> SegmentView {
        SegmentView {
            metadata: self.metadata,
            flushed_pages: self.flushed_pages@,
            write_buffer: self.buffer@,
        }
    }
}

/// An entry as bytes: key and value, each behind its length.
pub open spec fn entry_bytes(key: Seq<u8>, value: Seq<u8>) -> Seq<u8> {
    spec_u32_to_le_bytes(key.len() as u32) + key + spec_u32_to_le_bytes(value.len() as u32) + value
}

/// The number of bytes of an entry.
pub open spec fn entry_len(key: Seq<u8>, value: Seq<u8>) -> nat {
    8 + key.len() + value.len()
}

/// The value of the entry at an offset, if the bytes hold all of it.
pub open spec fn decoded_at(bytes: Seq<u8>, offset: int) -> Option<Seq<u8>> {
    if offset + 4 > bytes.len() {
        None
    } else {
        let key_end = offset + 4 + spec_u32_from_le_bytes(bytes.subrange(offset, offset + 4));
        if key_end + 4 > bytes.len() {
            None
        } else {
            let end = key_end + 4 + spec_u32_from_le_bytes(bytes.subrange(key_end, key_end + 4));
            if end > bytes.len() {
                None
            } else {
                Some(bytes.subrange(key_end + 4, end))
            }
        }
    }
}

/// An entry is read back wherever it stands.
pub proof fn law_entry_is_read_back(
    before: Seq<u8>,
    key: Seq<u8>,
    value: Seq<u8>,
    after: Seq<u8>,
)
    requires
        key.len() <= u32::MAX,
        value.len() <= u32::MAX,
    ensures
        decoded_at(before + entry_bytes(key, value) + after, before.len() as int) == Some(value),
{
    lemma_auto_spec_u32_to_from_le_bytes();
    let b = before + entry_bytes(key, value) + after;
    let at = before.len() as int;
    assert(b.subrange(at, at + 4) =~= spec_u32_to_le_bytes(key.len() as u32));
    let key_end = at + 4 + key.len();
    assert(b.subrange(key_end, key_end + 4) =~= spec_u32_to_le_bytes(value.len() as u32));
    assert(b.subrange(key_end + 4, key_end + 4 + value.len()) =~= value);
}

/// The payload of a segment page, or what is wrong with the page.
pub open spec fn chunk_of(pages: Map<u64, PageView>, id: PageId) -> TableResult<Seq<u8>> {
    if !pages.contains_key(id.0) {
        Err(TableError::Pager(PagerError::PageNotFound(id)))
    } else {
        let data = pages[id.0].data;
        if data.len() < PAGE_HEADER_SIZE {
            Err(TableError::Corruption(Corruption::ShortSegmentPage(id)))
        } else {
            let len = spec_u64_from_le_bytes(data.subrange(0, 8));
            if len > data.len() - PAGE_HEADER_SIZE {
                Err(
                    TableError::Corruption(
                        Corruption::InvalidChunkLength {
                            page_id: id,
                            chunk_len: len as usize,
                            available: (data.len() - PAGE_HEADER_SIZE) as usize,
                        },
                    ),
                )
            } else {
                Ok(data.subrange(PAGE_HEADER_SIZE as int, PAGE_HEADER_SIZE + len))
            }
        }
    }
}

/// The payloads of several pages in a row, or what is wrong with the first bad page.
pub open spec fn flushed_bytes(pages: Map<u64, PageView>, ids: Seq<PageId>) -> TableResult<Seq<u8>>
    decreases ids.len(),
{
    if ids.len() == 0 {
        Ok(Seq::empty())
    } else {
        match flushed_bytes(pages, ids.drop_last()) {
            Err(e) => Err(e),
            Ok(b) => match chunk_of(pages, ids.last()) {
                Err(e) => Err(e),
                Ok(c) => Ok(b + c),
            },
        }
    }
}

/// A segment page as bytes.
pub open spec fn image(chunk: Seq<u8>, more: bool) -> Seq<u8> {
    spec_u64_to_le_bytes(chunk.len() as u64) + spec_u64_to_le_bytes(
        if more {
            1u64
        } else {
            0u64
        },
    ) + chunk
}

/// The pages that hold the bytes.
pub open spec fn images(bytes: Seq<u8>, payload: int) -> Seq<Seq<u8>>
    decreases bytes.len(),
{
    if bytes.len() == 0 || payload <= 0 {
        Seq::empty()
    } else if bytes.len() <= payload {
        seq![image(bytes, false)]
    } else {
        seq![image(bytes.take(payload), true)] + images(bytes.skip(payload), payload)
    }
}

/// The pages hold the images.
pub open spec fn pages_hold(pages: Map<u64, PageView>, ids: Seq<PageId>, imgs: Seq<Seq<u8>>) -> bool {
    &&& ids.len() == imgs.len()
    &&& forall|i: int|
        0 <= i < ids.len() ==> pages.contains_key((#[trigger] ids[i]).0) && pages[ids[i].0] == (
        PageView { page_type: PageType::LsmData, data: imgs[i] })
}

/// The pages of one state of the store are there in another.
pub open spec fn pages_kept(before: Map<u64, PageView>, after: Map<u64, PageView>) -> bool {
    forall|id: u64| #[trigger]
        before.contains_key(id) ==> after.contains_key(id) && after[id] == before[id]
}

proof fn lemma_image(pages: Map<u64, PageView>, id: PageId, chunk: Seq<u8>, more: bool)
    requires
        pages.contains_key(id.0),
        pages[id.0].data == image(chunk, more),
        chunk.len() <= u64::MAX,
    ensures
        chunk_of(pages, id) == Ok::<Seq<u8>, TableError>(chunk),
{
    lemma_auto_spec_u64_to_from_le_bytes();
    let data = image(chunk, more);
    assert(data.subrange(0, 8) =~= spec_u64_to_le_bytes(chunk.len() as u64));
    assert(data.subrange(16, (16 + chunk.len()) as int) =~= chunk);
}

proof fn lemma_flushed_concat(pages: Map<u64, PageView>, a: Seq<PageId>, b: Seq<PageId>)
    requires
        flushed_bytes(pages, a) is Ok,
        flushed_bytes(pages, b) is Ok,
    ensures
        flushed_bytes(pages, a + b) == Ok::<Seq<u8>, TableError>(
            flushed_bytes(pages, a)->Ok_0 + flushed_bytes(pages, b)->Ok_0,
        ),
    decreases b.len(),
{
    if b.len() == 0 {
        assert(a + b =~= a);
        assert(flushed_bytes(pages, a)->Ok_0 + flushed_bytes(pages, b)->Ok_0 =~= flushed_bytes(
            pages,
            a,
        )->Ok_0);
    } else {
        lemma_flushed_concat(pages, a, b.drop_last());
        assert((a + b).drop_last() =~= a + b.drop_last());
        let x = flushed_bytes(pages, a)->Ok_0;
        let y = flushed_bytes(pages, b.drop_last())->Ok_0;
        let z = chunk_of(pages, b.last())->Ok_0;
        assert((x + y) + z =~= x + (y + z));
    }
}

proof fn lemma_flushed_one(pages: Map<u64, PageView>, id: PageId)
    requires
        chunk_of(pages, id) is Ok,
    ensures
        flushed_bytes(pages, seq![id]) == chunk_of(pages, id),
{
    let ids = seq![id];
    assert(ids.drop_last() =~= Seq::<PageId>::empty());
    assert(flushed_bytes(pages, ids.drop_last()) == Ok::<Seq<u8>, TableError>(Seq::empty()));
    assert(Seq::<u8>::empty() + chunk_of(pages, id)->Ok_0 =~= chunk_of(pages, id)->Ok_0);
}

/// What is written to pages is read back from them.
pub proof fn law_pages_are_read_back(
    pages: Map<u64, PageView>,
    ids: Seq<PageId>,
    bytes: Seq<u8>,
    payload: int,
)
    requires
        0 < payload <= u64::MAX,
        pages_hold(pages, ids, images(bytes, payload)),
    ensures
        flushed_bytes(pages, ids) == Ok::<Seq<u8>, TableError>(bytes),
    decreases bytes.len(),
{
    if bytes.len() == 0 {
        assert(ids.len() == 0);
        assert(bytes =~= Seq::empty());
    } else if bytes.len() <= payload {
        assert(ids =~= seq![ids[0]]);
        lemma_image(pages, ids[0], bytes, false);
        lemma_flushed_one(pages, ids[0]);
    } else {
        let imgs = images(bytes, payload);
        let rest = images(bytes.skip(payload), payload);
        let first = seq![ids[0]];
        let others = ids.skip(1);
        assert(imgs[0] == image(bytes.take(payload), true));
        lemma_image(pages, ids[0], bytes.take(payload), true);
        lemma_flushed_one(pages, ids[0]);
        assert forall|i: int| 0 <= i < others.len() implies pages.contains_key(
            (#[trigger] others[i]).0,
        ) && pages[others[i].0] == (PageView { page_type: PageType::LsmData, data: rest[i] }) by {
            assert(others[i] == ids[i + 1]);
            assert(imgs[i + 1] == rest[i]);
        }
        law_pages_are_read_back(pages, others, bytes.skip(payload), payload);
        lemma_flushed_concat(pages, first, others);
        assert(first + others =~= ids);
        assert(bytes.take(payload) + bytes.skip(payload) =~= bytes);
    }
}

proof fn lemma_flushed_kept(before: Map<u64, PageView>, after: Map<u64, PageView>, ids: Seq<PageId>)
    requires
        pages_kept(before, after),
        flushed_bytes(before, ids) is Ok,
    ensures
        flushed_bytes(after, ids) == flushed_bytes(before, ids),
    decreases ids.len(),
{
    if ids.len() > 0 {
        lemma_flushed_kept(before, after, ids.drop_last());
        assert(before.contains_key(ids.last().0));
    }
}

/// How many of the buffered bytes a flush writes: all of them, or as many as fill pages.
pub open spec fn flush_len(len: int, payload: int) -> int {
    if len < payload {
        len
    } else {
        (len / payload) * payload
    }
}

/// What a page of the store holds of a segment.
pub open spec fn payload_size(pager: Pager) -> int {
    pager.capacity() - PAGE_HEADER_SIZE
}

/// The value of the entry at an offset, if the bytes hold all of it.
fn decode_value_at(bytes: &[u8], offset: usize) -> (r: Option<ValueBuf>)
    ensures
        value_view(r) == decoded_at(bytes@, offset as int),
{
    let len: usize = bytes.len();
    if offset >= len || len - offset < 4 {
        return None;
    }
    let key_len: usize = u32_from_le_bytes(
        vstd::slice::slice_subrange(bytes, offset, offset + 4),
    ) as usize;
    let pos: usize = offset + 4;
    if len - pos < key_len || len - pos - key_len < 4 {
        return None;
    }
    let key_end: usize = pos + key_len;
    let value_len: usize = u32_from_le_bytes(
        vstd::slice::slice_subrange(bytes, key_end, key_end + 4),
    ) as usize;
    if len - key_end - 4 < value_len {
        return None;
    }
    Some(ValueBuf(sub_bytes(bytes, key_end + 4, key_end + 4 + value_len)))
}

impl Segment {
    /// What was flushed to pages.
    pub open spec fn flushed(&self, pages: Map<u64, PageView>) -> TableResult<Seq<u8>> {
        flushed_bytes(pages, self.flushed_pages@)
    }

    /// The flushed pages can be read, and the size is that of all bytes.
    pub open spec fn wf(&self, pages: Map<u64, PageView>) -> bool {
        &&& self.flushed(pages) is Ok
        &&& self.metadata.size == self.flushed(pages)->Ok_0.len() + self.write_buffer@.len()
    }

    /// All bytes of the segment.
    pub open spec fn log(&self, pages: Map<u64, PageView>) -> Seq<u8> {
        self.flushed(pages)->Ok_0 + self.write_buffer@
    }

    /// The value of the entry at an offset, wherever its bytes stand.
    pub open spec fn value_at(&self, pages: Map<u64, PageView>, offset: int) -> Option<Seq<u8>> {
        if offset >= self.metadata.size {
            None
        } else {
            decoded_at(self.log(pages), offset)
        }
    }

    /// An empty segment that starts with a new page.
    pub fn new(id: SegmentId, pager: &mut Pager, created_at: u64) -> (r: Self)
        requires
            old(pager).wf(),
        ensures
            final(pager).wf(),
            final(pager).same_meta(old(pager)),
            !old(pager).pages().contains_key(r.metadata.first_page_id.0),
            final(pager).pages() == old(pager).pages().insert(
                r.metadata.first_page_id.0,
                PageView { page_type: PageType::LsmData, data: Seq::empty() },
            ),
            r.metadata == (SegmentMetadata {
                id,
                created_at,
                entry_count: 0,
                size: 0,
                first_page_id: r.metadata.first_page_id,
                last_page_id: r.metadata.first_page_id,
            }),
            r.flushed_pages@.len() == 0,
            r.write_buffer@.len() == 0,
            r.wf(final(pager).pages()),
    {
        let first_page_id = pager.allocate_page(PageType::LsmData);
        Segment {
            metadata: SegmentMetadata {
                id,
                created_at,
                entry_count: 0,
                size: 0,
                first_page_id,
                last_page_id: first_page_id,
            },
            flushed_pages: Vec::new(),
            write_buffer: Vec::new(),
        }
    }

    /// The identifier of the segment.
    pub fn id(&self) -> (r: SegmentId)
        ensures
            r == self.metadata.id,
    {
        self.metadata.id
    }

    /// When the segment was made, in seconds since 1970.
    pub fn created_at(&self) -> (r: u64)
        ensures
            r == self.metadata.created_at,
    {
        self.metadata.created_at
    }

    /// The size of all entries in bytes.
    pub fn size(&self) -> (r: u64)
        ensures
            r == self.metadata.size,
    {
        self.metadata.size
    }

    /// The number of entries.
    pub fn entry_count(&self) -> (r: u64)
        ensures
            r == self.metadata.entry_count,
    {
        self.metadata.entry_count
    }

    /// What is known of the segment.
    pub fn metadata(&self) -> (r: SegmentMetadata)
        ensures
            r == self.metadata,
    {
        self.metadata
    }

    /// A copy of what was not flushed yet.
    pub fn buffer(&self) -> (r: Vec<u8>)
        ensures
            r@ == self.write_buffer@,
    {
        copy_bytes(self.write_buffer.as_slice())
    }

    /// The point of the log that stands for the time when the segment was made.
    pub fn latest_lsn(&self) -> (r: LogSequenceNumber)
        ensures
            r.0 == self.metadata.created_at,
    {
        LogSequenceNumber(self.metadata.created_at)
    }

    /// A copy of the list of flushed pages.
    pub fn flushed_pages(&self) -> (r: Vec<PageId>)
        ensures
            r@ == self.flushed_pages@,
    {
        let mut r: Vec<PageId> = Vec::new();
        let mut i: usize = 0;
        while i < self.flushed_pages.len()
            invariant
                i <= self.flushed_pages@.len(),
                r@ == self.flushed_pages@.take(i as int),
            decreases self.flushed_pages@.len() - i,
        {
            r.push(self.flushed_pages[i]);
            i += 1;
            assert(self.flushed_pages@.take(i as int) =~= self.flushed_pages@.take(i - 1).push(
                self.flushed_pages@[i - 1],
            ));
        }
        assert(self.flushed_pages@.take(i as int) =~= self.flushed_pages@);
        r
    }

    fn read_chunk(pager: &Pager, id: PageId) -> (r: TableResult<Vec<u8>>)
        requires
            pager.wf(),
        ensures
            r is Ok <==> chunk_of(pager.pages(), id) is Ok,
            r matches Ok(v) ==> chunk_of(pager.pages(), id)->Ok_0 == v@,
            r matches Err(e) ==> chunk_of(pager.pages(), id)->Err_0 == e,
    {
        let page = match pager.read_page(id) {
            Ok(p) => p,
            Err(e) => return Err(TableError::Pager(e)),
        };
        if page.data.len() < PAGE_HEADER_SIZE {
            return Err(TableError::Corruption(Corruption::ShortSegmentPage(id)));
        }
        let len: u64 = u64_from_le_bytes(
            vstd::slice::slice_subrange(page.data.as_slice(), 0, 8),
        );
        let available: usize = page.data.len() - PAGE_HEADER_SIZE;
        if len > available as u64 {
            return Err(
                TableError::Corruption(
                    Corruption::InvalidChunkLength {
                        page_id: id,
                        chunk_len: len as usize,
                        available,
                    },
                ),
            );
        }
        Ok(sub_bytes(page.data.as_slice(), PAGE_HEADER_SIZE, PAGE_HEADER_SIZE + len as usize))
    }

    /// Whether the flushed pages can be read and the size is that of all bytes, as it has to be
    /// before anything is appended to a segment that was stored.
    pub fn is_sound(&self, pager: &Pager) -> (r: bool)
        requires
            pager.wf(),
        ensures
            r == self.wf(pager.pages()),
    {
        match self.read_flushed(pager) {
            Ok(flushed) => self.metadata.size as u128 == flushed.len() as u128
                + self.write_buffer.len() as u128,
            Err(_) => false,
        }
    }

    fn read_flushed(&self, pager: &Pager) -> (r: TableResult<Vec<u8>>)
        requires
            pager.wf(),
        ensures
            r is Ok <==> self.flushed(pager.pages()) is Ok,
            r matches Ok(v) ==> self.flushed(pager.pages())->Ok_0 == v@,
            r matches Err(e) ==> self.flushed(pager.pages())->Err_0 == e,
    {
        let ghost pages = pager.pages();
        let ghost ids = self.flushed_pages@;
        let mut out: Vec<u8> = Vec::new();
        let mut i: usize = 0;
        assert(ids.take(0) =~= Seq::empty());
        while i < self.flushed_pages.len()
            invariant
                pager.wf(),
                pages == pager.pages(),
                ids == self.flushed_pages@,
                i <= ids.len(),
                flushed_bytes(pages, ids.take(i as int)) == Ok::<Seq<u8>, TableError>(out@),
            decreases ids.len() - i,
        {
            proof {
                assert(ids.take(i + 1).drop_last() =~= ids.take(i as int));
                assert(ids.take(i + 1).last() == ids[i as int]);
            }
            match Self::read_chunk(pager, self.flushed_pages[i]) {
                Ok(chunk) => append_bytes(&mut out, chunk.as_slice()),
                Err(e) => {
                    proof {
                        lemma_error_stays(pages, ids, i + 1);
                    }
                    return Err(e);
                },
            }
            i += 1;
        }
        assert(ids.take(i as int) =~= ids);
        Ok(out)
    }

    /// The value of the entry at an offset, or what is wrong with the first bad page.
    pub fn read_at(&self, pager: &Pager, offset: u64) -> (r: TableResult<Option<ValueBuf>>)
        requires
            pager.wf(),
        ensures
            offset >= self.metadata.size ==> r == Ok::<Option<ValueBuf>, TableError>(None),
            offset < self.metadata.size ==> (r is Ok <==> self.flushed(pager.pages()) is Ok),
            r matches Ok(v) ==> value_view(v) == self.value_at(pager.pages(), offset as int),
            r matches Err(e) ==> self.flushed(pager.pages())->Err_0 == e,
    {
        if offset >= self.metadata.size {
            return Ok(None);
        }
        let mut all = match self.read_flushed(pager) {
            Ok(b) => b,
            Err(e) => return Err(e),
        };
        append_bytes(&mut all, self.write_buffer.as_slice());
        if offset >= all.len() as u64 {
            return Ok(None);
        }
        Ok(decode_value_at(all.as_slice(), offset as usize))
    }

    fn write_bytes_to_pages(bytes: &[u8], pager: &mut Pager, payload: usize) -> (r: Vec<PageId>)
        requires
            old(pager).wf(),
            0 < payload == payload_size(*old(pager)),
        ensures
            final(pager).wf(),
            final(pager).same_meta(old(pager)),
            pages_kept(old(pager).pages(), final(pager).pages()),
            pages_hold(final(pager).pages(), r@, images(bytes@, payload as int)),
            forall|i: int| 0 <= i < r@.len() ==> !old(pager).pages().contains_key(
                (#[trigger] r@[i]).0,
            ),
    {
        let ghost all = images(bytes@, payload as int);
        let ghost before = pager.pages();
        let len: usize = bytes.len();
        let mut ids: Vec<PageId> = Vec::new();
        let mut at: usize = 0;
        assert(bytes@.skip(0) =~= bytes@);
        assert(Seq::<Seq<u8>>::empty() + all =~= all);
        let ghost mut done: Seq<Seq<u8>> = Seq::empty();
        while at < len
            invariant
                len == bytes@.len(),
                at <= len,
                pager.wf(),
                pager.same_meta(old(pager)),
                before == old(pager).pages(),
                0 < payload == payload_size(*pager),
                pages_kept(before, pager.pages()),
                pages_hold(pager.pages(), ids@, done),
                forall|i: int| 0 <= i < ids@.len() ==> !before.contains_key(
                    (#[trigger] ids@[i]).0,
                ),
                all == done + images(bytes@.skip(at as int), payload as int),
            decreases len - at,
        {
            let ghost rest = bytes@.skip(at as int);
            let ghost pages0 = pager.pages();
            let more: bool = len - at > payload;
            let end: usize = if more {
                at + payload
            } else {
                len
            };
            let id = pager.allocate_page(PageType::LsmData);
            let chunk = sub_bytes(bytes, at, end);
            let mut page = Page::new(id, PageType::LsmData);
            append_bytes(&mut page.data, u64_to_le_bytes(chunk.len() as u64).as_slice());
            let flag: u64 = if more {
                1
            } else {
                0
            };
            append_bytes(&mut page.data, u64_to_le_bytes(flag).as_slice());
            append_bytes(&mut page.data, chunk.as_slice());
            let ghost img = image(chunk@, more);
            assert(page.data@ =~= img);
            assert(page.data@.len() == chunk@.len() + 16) by {
                lemma_auto_spec_u64_to_from_le_bytes();
            }
            let written = pager.write_page(page);
            assert(written is Ok);
            ids.push(id);
            proof {
                if more {
                    assert(chunk@ =~= rest.take(payload as int));
                    assert(rest.skip(payload as int) =~= bytes@.skip(end as int));
                } else {
                    assert(chunk@ =~= rest);
                    assert(bytes@.skip(end as int) =~= Seq::empty());
                }
                assert(images(rest, payload as int) =~= seq![img] + images(
                    bytes@.skip(end as int),
                    payload as int,
                ));
                assert(done + images(rest, payload as int) =~= done.push(img) + images(
                    bytes@.skip(end as int),
                    payload as int,
                ));
                done = done.push(img);
                assert forall|i: int| 0 <= i < ids@.len() implies pager.pages().contains_key(
                    (#[trigger] ids@[i]).0,
                ) && pager.pages()[ids@[i].0] == (PageView {
                    page_type: PageType::LsmData,
                    data: done[i],
                }) by {
                    if i < ids@.len() - 1 {
                        assert(pages0.contains_key(ids@[i].0));
                    }
                }
            }
            at = end;
        }
        proof {
            assert(bytes@.skip(at as int) =~= Seq::empty());
            assert(done + Seq::<Seq<u8>>::empty() =~= done);
        }
        ids
    }

    /// The segment and the store after a flush of the buffer.
    pub open spec fn is_flushed(&self, pages: Map<u64, PageView>, before: &Segment, pages0: Map<
        u64,
        PageView,
    >, payload: int) -> bool {
        let n = flush_len(before.write_buffer@.len() as int, payload);
        let imgs = images(before.write_buffer@.take(n), payload);
        let k = before.flushed_pages@.len() as int;
        &&& self.write_buffer@ == before.write_buffer@.skip(n)
        &&& self.flushed_pages@.len() == k + imgs.len()
        &&& self.flushed_pages@.take(k) == before.flushed_pages@
        &&& pages_kept(pages0, pages)
        &&& pages_hold(pages, self.flushed_pages@.skip(k), imgs)
        &&& self.metadata == (SegmentMetadata {
            last_page_id: if self.flushed_pages@.len() > 0 {
                self.flushed_pages@.last()
            } else {
                before.metadata.last_page_id
            },
            ..before.metadata
        })
    }

    /// Writes the buffer to pages, as far as it fills them, or all of it if it fills none.
    pub fn flush(&mut self, pager: &mut Pager) -> (r: TableResult<()>)
        requires
            old(pager).wf(),
        ensures
            r is Ok,
            final(pager).wf(),
            final(pager).same_meta(old(pager)),
            old(self).write_buffer@.len() == 0 ==> *final(self) == *old(self) && final(pager).pages() == old(pager).pages(),
            old(self).write_buffer@.len() > 0 ==> final(self).is_flushed(
                final(pager).pages(),
                old(self),
                old(pager).pages(),
                payload_size(*old(pager)),
            ),
            pages_kept(old(pager).pages(), final(pager).pages()),
            old(self).wf(old(pager).pages()) ==> final(self).wf(final(pager).pages())
                && final(self).log(final(pager).pages()) == old(self).log(old(pager).pages())
                && forall|offset: int| #[trigger]
                final(self).value_at(final(pager).pages(), offset) == old(self).value_at(
                    old(pager).pages(),
                    offset,
                ),
    {
        let ghost pages0 = pager.pages();
        let payload: usize = pager.page_size().data_size() - PAGE_HEADER_SIZE;
        let len: usize = self.write_buffer.len();
        if len == 0 {
            return Ok(());
        }
        proof {
            lemma_flush_len(len as int, payload as int);
        }
        let n: usize = if len < payload {
            len
        } else {
            (len / payload) * payload
        };
        let bytes = sub_bytes(self.write_buffer.as_slice(), 0, n);
        let rest = sub_bytes(self.write_buffer.as_slice(), n, len);
        let ids = Self::write_bytes_to_pages(bytes.as_slice(), pager, payload);
        let ghost ids0 = self.flushed_pages@;
        let mut i: usize = 0;
        while i < ids.len()
            invariant
                i <= ids@.len(),
                self.flushed_pages@ == ids0 + ids@.take(i as int),
                self.write_buffer == old(self).write_buffer,
                self.metadata == old(self).metadata,
            decreases ids@.len() - i,
        {
            self.flushed_pages.push(ids[i]);
            i += 1;
            assert(ids@.take(i as int) =~= ids@.take(i - 1).push(ids@[i - 1]));
        }
        if self.flushed_pages.len() > 0 {
            self.metadata.last_page_id = self.flushed_pages[self.flushed_pages.len() - 1];
        }
        self.write_buffer = rest;
        proof {
            let k = ids0.len() as int;
            assert(ids@.take(i as int) =~= ids@);
            assert(self.flushed_pages@.take(k) =~= ids0);
            assert(self.flushed_pages@.skip(k) =~= ids@);
            assert(bytes@ =~= old(self).write_buffer@.take(n as int));
            assert(rest@ =~= old(self).write_buffer@.skip(n as int));
            law_pages_are_read_back(pager.pages(), ids@, bytes@, payload as int);
            if old(self).wf(pages0) {
                lemma_flushed_kept(pages0, pager.pages(), ids0);
                lemma_flushed_concat(pager.pages(), ids0, ids@);
                assert(self.log(pager.pages()) =~= old(self).log(pages0));
            }
        }
        Ok(())
    }

    /// Appends an entry, and flushes the buffer if it has reached the threshold. Returns where
    /// the entry stands.
    pub fn append(&mut self, pager: &mut Pager, key: &[u8], value: &[u8], flush_threshold: usize) -> (r:
        TableResult<u64>)
        requires
            old(pager).wf(),
            old(self).wf(old(pager).pages()),
            old(self).metadata.entry_count < u64::MAX,
            old(self).metadata.size + entry_len(key@, value@) <= u64::MAX,
        ensures
            r == Ok::<u64, TableError>(old(self).metadata.size),
            final(pager).wf(),
            final(pager).same_meta(old(pager)),
            pages_kept(old(pager).pages(), final(pager).pages()),
            final(self).wf(final(pager).pages()),
            final(self).log(final(pager).pages()) == old(self).log(old(pager).pages())
                + entry_bytes(key@, value@),
            final(self).metadata == (SegmentMetadata {
                entry_count: (old(self).metadata.entry_count + 1) as u64,
                size: (old(self).metadata.size + entry_len(key@, value@)) as u64,
                last_page_id: final(self).metadata.last_page_id,
                ..old(self).metadata
            }),
            key@.len() <= u32::MAX && value@.len() <= u32::MAX ==> final(self).value_at(
                final(pager).pages(),
                old(self).metadata.size as int,
            ) == Some(value@),
            forall|offset: int|
                0 <= offset && old(self).value_at(old(pager).pages(), offset) is Some
                    ==> #[trigger] final(self).value_at(final(pager).pages(), offset) == old(
                    self,
                ).value_at(old(pager).pages(), offset),
            ({
                let buffer = old(self).write_buffer@ + entry_bytes(key@, value@);
                if buffer.len() < flush_threshold {
                    &&& final(self).write_buffer@ == buffer
                    &&& old(self).write_buffer@.is_prefix_of(final(self).write_buffer@)
                    &&& final(self).flushed_pages == old(self).flushed_pages
                    &&& final(self).metadata.last_page_id == old(self).metadata.last_page_id
                    &&& final(pager).pages() == old(pager).pages()
                } else {
                    let n = flush_len(buffer.len() as int, payload_size(*old(pager)));
                    &&& final(self).write_buffer@ == buffer.skip(n)
                    &&& final(self).flushed(final(pager).pages())->Ok_0 == old(self).flushed(
                        old(pager).pages(),
                    )->Ok_0 + buffer.take(n)
                }
            }),
    {
        let ghost pages0 = pager.pages();
        let ghost buffer = self.write_buffer@ + entry_bytes(key@, value@);
        let offset: u64 = self.metadata.size;
        append_bytes(&mut self.write_buffer, u32_to_le_bytes(key.len() as u32).as_slice());
        append_bytes(&mut self.write_buffer, key);
        append_bytes(&mut self.write_buffer, u32_to_le_bytes(value.len() as u32).as_slice());
        append_bytes(&mut self.write_buffer, value);
        proof {
            lemma_auto_spec_u32_to_from_le_bytes();
            assert(self.write_buffer@ =~= buffer);
        }
        let entry_size: u64 = 4 + key.len() as u64 + 4 + value.len() as u64;
        self.metadata.entry_count = self.metadata.entry_count + 1;
        self.metadata.size = self.metadata.size + entry_size;
        let ghost mid = *self;
        proof {
            assert(mid.log(pages0) =~= old(self).log(pages0) + entry_bytes(key@, value@));
            assert(mid.wf(pages0));
        }
        if self.write_buffer.len() >= flush_threshold {
            let _ = self.flush(pager);
            proof {
                let n = flush_len(buffer.len() as int, payload_size(*old(pager)));
                lemma_flush_len(buffer.len() as int, payload_size(*old(pager)));
                let f = self.flushed(pager.pages())->Ok_0;
                let f0 = mid.flushed(pages0)->Ok_0;
                assert(f + buffer.skip(n) == f0 + buffer);
                assert(f0 + buffer =~= (f0 + buffer.take(n)) + buffer.skip(n));
                assert(f.len() == f0.len() + n);
                assert(f =~= (f + buffer.skip(n)).take(f.len() as int));
                assert(f0 + buffer.take(n) =~= ((f0 + buffer.take(n)) + buffer.skip(n)).take(
                    f.len() as int,
                ));
            }
        }
        proof {
            let bytes = old(self).log(pages0);
            let entry = entry_bytes(key@, value@);
            assert(bytes + entry =~= bytes + entry + Seq::<u8>::empty());
            if key@.len() <= u32::MAX && value@.len() <= u32::MAX {
                law_append_is_read_back(*self, pager.pages(), bytes, key@, value@, Seq::empty());
            }
            assert forall|at: int|
                0 <= at && old(self).value_at(pages0, at) is Some implies #[trigger] self.value_at(
                pager.pages(),
                at,
            ) == old(self).value_at(pages0, at) by {
                law_append_keeps_earlier_entries(bytes, entry, at);
            }
        }
        Ok(offset)
    }

    /// The segment that was stored.
    pub fn from_persisted(persisted: PersistedSegment) -> (r: Self)
        ensures
            r@ == persisted@,
    {
        Segment {
            metadata: persisted.metadata,
            flushed_pages: persisted.flushed_pages,
            write_buffer: persisted.buffer,
        }
    }

    /// The segment as it is stored.
    pub fn persist(&self) -> (r: PersistedSegment)
        ensures
            r@ == self@,
    {
        PersistedSegment {
            metadata: self.metadata(),
            buffer: self.buffer(),
            flushed_pages: self.flushed_pages(),
        }
    }
}

proof fn lemma_flush_len(len: int, payload: int)
    requires
        len > 0,
        payload > 0,
    ensures
        0 < flush_len(len, payload) <= len,
        (len / payload) * payload <= len,
{
    assert((len / payload) * payload <= len) by (nonlinear_arith)
        requires
            len > 0,
            payload > 0,
    ;
    if len >= payload {
        assert((len / payload) * payload > 0) by (nonlinear_arith)
            requires
                len >= payload,
                payload > 0,
        ;
    }
}

proof fn lemma_error_stays(pages: Map<u64, PageView>, ids: Seq<PageId>, n: int)
    requires
        0 <= n <= ids.len(),
        flushed_bytes(pages, ids.take(n)) is Err,
    ensures
        flushed_bytes(pages, ids) == flushed_bytes(pages, ids.take(n)),
    decreases ids.len(),
{
    if n == ids.len() {
        assert(ids.take(n) =~= ids);
    } else {
        assert(ids.drop_last().take(n) =~= ids.take(n));
        lemma_error_stays(pages, ids.drop_last(), n);
    }
}

/// An entry that was appended is read back from where it was appended, whatever was appended
/// behind it and wherever flushes have cut the bytes.
pub proof fn law_append_is_read_back(
    segment: Segment,
    pages: Map<u64, PageView>,
    before: Seq<u8>,
    key: Seq<u8>,
    value: Seq<u8>,
    after: Seq<u8>,
)
    requires
        segment.wf(pages),
        segment.log(pages) == before + entry_bytes(key, value) + after,
        key.len() <= u32::MAX,
        value.len() <= u32::MAX,
    ensures
        segment.value_at(pages, before.len() as int) == Some(value),
{
    lemma_auto_spec_u32_to_from_le_bytes();
    law_entry_is_read_back(before, key, value, after);
}

/// An entry that stands whole in a segment is read the same after more was appended.
pub proof fn law_append_keeps_earlier_entries(bytes: Seq<u8>, more: Seq<u8>, offset: int)
    requires
        0 <= offset,
        decoded_at(bytes, offset) is Some,
    ensures
        decoded_at(bytes + more, offset) == decoded_at(bytes, offset),
{
    let all = bytes + more;
    assert(all.subrange(offset, offset + 4) =~= bytes.subrange(offset, offset + 4));
    let key_end = offset + 4 + spec_u32_from_le_bytes(bytes.subrange(offset, offset + 4));
    assert(all.subrange(key_end, key_end + 4) =~= bytes.subrange(key_end, key_end + 4));
    let end = key_end + 4 + spec_u32_from_le_bytes(bytes.subrange(key_end, key_end + 4));
    assert(all.subrange(key_end + 4, end) =~= bytes.subrange(key_end + 4, end));
}

/// An append that does not reach the threshold only lengthens the buffer: the entry is read from
/// where the segment ended, every earlier entry is read as before, and the buffer starts with
/// what it held.
pub proof fn law_buffered_append(
    before: Segment,
    after: Segment,
    pages: Map<u64, PageView>,
    key: Seq<u8>,
    value: Seq<u8>,
    offset: int,
)
    requires
        before.wf(pages),
        after.wf(pages),
        key.len() <= u32::MAX,
        value.len() <= u32::MAX,
        after.log(pages) == before.log(pages) + entry_bytes(key, value),
        after.write_buffer@ == before.write_buffer@ + entry_bytes(key, value),
        after.metadata.size == before.metadata.size + entry_len(key, value),
        0 <= offset,
        before.value_at(pages, offset) is Some,
    ensures
        after.value_at(pages, before.metadata.size as int) == Some(value),
        after.value_at(pages, offset) == before.value_at(pages, offset),
        before.write_buffer@.is_prefix_of(after.write_buffer@),
{
    let bytes = before.log(pages);
    let entry = entry_bytes(key, value);
    assert(bytes + entry =~= bytes + entry + Seq::<u8>::empty());
    law_append_is_read_back(after, pages, bytes, key, value, Seq::empty());
    law_append_keeps_earlier_entries(bytes, entry, offset);
}

} // verus!
