//! Blobs as chains of pages.
use crate::bloom::bits::zeros;
use crate::bytes::{append_bytes, sub_bytes};
use crate::pager::{Page, PageId, PageType, PageView, Pager, PagerError};
use crate::table::{Corruption, TableError, TableResult};
use vstd::bytes::*;
use vstd::prelude::*;

verus! {

/// The length of the number of the next page, with which a blob page starts.
pub const BLOB_HEADER_SIZE: usize = 8;

/// So many zero bytes.
pub open spec fn blank(n: int) -> Seq<u8> {
    Seq::new(n as nat, |i: int| 0u8)
}

/// A blob cut into payloads of full size; the last one is filled up with zeros, and an empty blob
/// is one payload of zeros.
pub open spec fn blob_chunks(value: Seq<u8>, payload: int) -> Seq<Seq<u8>>
    decreases value.len(),
{
    if value.len() <= payload || payload <= 0 {
        seq![value + blank(payload - value.len())]
    } else {
        seq![value.take(payload)] + blob_chunks(value.skip(payload), payload)
    }
}

/// Byte strings in a row.
pub open spec fn joined(chunks: Seq<Seq<u8>>) -> Seq<u8>
    decreases chunks.len(),
{
    if chunks.len() == 0 {
        Seq::empty()
    } else {
        chunks[0] + joined(chunks.drop_first())
    }
}

/// A blob as its pages give it back: filled up with zeros to full pages.
pub open spec fn padded(value: Seq<u8>, payload: int) -> Seq<u8> {
    joined(blob_chunks(value, payload))
}

/// What the pages give back starts with the blob, and nothing but zeros follows.
pub proof fn law_padded_starts_with_value(value: Seq<u8>, payload: int)
    requires
        payload > 0,
    ensures
        padded(value, payload).len() >= value.len(),
        padded(value, payload).take(value.len() as int) == value,
        forall|i: int|
            value.len() <= i < padded(value, payload).len() ==> #[trigger] padded(
                value,
                payload,
            )[i] == 0,
        padded(value, payload).len() < value.len() + payload || value.len() == 0,
    decreases value.len(),
{
    let chunks = blob_chunks(value, payload);
    let all = padded(value, payload);
    if value.len() <= payload {
        assert(chunks.drop_first() =~= Seq::empty());
        assert(joined(chunks.drop_first()) =~= Seq::<u8>::empty());
        assert(all =~= value + blank(payload - value.len()));
        assert(all.take(value.len() as int) =~= value);
    } else {
        let rest = value.skip(payload);
        law_padded_starts_with_value(rest, payload);
        assert(chunks.drop_first() =~= blob_chunks(rest, payload));
        assert(all =~= value.take(payload) + padded(rest, payload));
        let tail = padded(rest, payload);
        assert(all.take(value.len() as int) =~= value.take(payload) + tail.take(
            rest.len() as int,
        ));
        assert(value =~= value.take(payload) + rest);
        assert forall|i: int| value.len() <= i < all.len() implies #[trigger] all[i] == 0 by {
            assert(all[i] == tail[i - payload]);
        }
    }
}

/// A blob page.
pub open spec fn blob_page(next: u64, chunk: Seq<u8>) -> PageView {
    PageView { page_type: PageType::Overflow, data: spec_u64_to_le_bytes(next) + chunk }
}

/// The number of the page after one, or zero after the last one.
pub open spec fn next_of(ids: Seq<PageId>, i: int) -> u64 {
    if i + 1 < ids.len() {
        ids[i + 1].0
    } else {
        0
    }
}

/// The pages hold the chunks and point at each other.
pub open spec fn pages_chain(pages: Map<u64, PageView>, ids: Seq<PageId>, chunks: Seq<Seq<u8>>) -> bool {
    &&& ids.len() == chunks.len()
    &&& forall|i: int|
        0 <= i < ids.len() ==> (#[trigger] ids[i]).0 != 0 && pages.contains_key(ids[i].0)
            && pages[ids[i].0] == blob_page(next_of(ids, i), chunks[i])
}

/// What a chain of blob pages holds, or what is wrong with it.
pub open spec fn blob_data(pages: Map<u64, PageView>, id: u64, fuel: nat) -> TableResult<Seq<u8>>
    decreases fuel,
{
    if fuel == 0 {
        Err(TableError::Corruption(Corruption::OverflowCycle(PageId(id))))
    } else if !pages.contains_key(id) {
        Err(TableError::Pager(PagerError::PageNotFound(PageId(id))))
    } else if pages[id].data.len() < BLOB_HEADER_SIZE {
        Err(TableError::Corruption(Corruption::InvalidOverflowPage(PageId(id))))
    } else {
        let data = pages[id].data;
        let next = spec_u64_from_le_bytes(data.subrange(0, 8));
        let here = data.skip(8);
        if next == 0 {
            Ok(here)
        } else {
            match blob_data(pages, next, (fuel - 1) as nat) {
                Ok(rest) => Ok(here + rest),
                Err(e) => Err(e),
            }
        }
    }
}

/// What was written to a chain of pages is read back from it.
pub proof fn law_chain_is_read_back(
    pages: Map<u64, PageView>,
    ids: Seq<PageId>,
    chunks: Seq<Seq<u8>>,
    fuel: nat,
)
    requires
        pages_chain(pages, ids, chunks),
        0 < ids.len() <= fuel,
    ensures
        blob_data(pages, ids[0].0, fuel) == Ok::<Seq<u8>, TableError>(joined(chunks)),
    decreases ids.len(),
{
    lemma_auto_spec_u64_to_from_le_bytes();
    let next = next_of(ids, 0);
    let data = pages[ids[0].0].data;
    assert(data.subrange(0, 8) =~= spec_u64_to_le_bytes(next));
    assert(data.skip(8) =~= chunks[0]);
    if ids.len() == 1 {
        assert(chunks.drop_first() =~= Seq::empty());
        assert(chunks[0] + Seq::<u8>::empty() =~= chunks[0]);
        assert(joined(chunks.drop_first()) =~= Seq::<u8>::empty());
    } else {
        let ids2 = ids.drop_first();
        let chunks2 = chunks.drop_first();
        assert forall|i: int| 0 <= i < ids2.len() implies (#[trigger] ids2[i]).0 != 0
            && pages.contains_key(ids2[i].0) && pages[ids2[i].0] == blob_page(
            next_of(ids2, i),
            chunks2[i],
        ) by {
            assert(ids2[i] == ids[i + 1]);
            assert(next_of(ids2, i) == next_of(ids, i + 1));
        }
        law_chain_is_read_back(pages, ids2, chunks2, (fuel - 1) as nat);
        assert(ids[1].0 != 0);
    }
}

/// The pages of the blob that starts at a page, as far as it can be followed.
pub open spec fn blob_pages(pages: Map<u64, PageView>, id: u64, fuel: nat) -> Set<u64>
    decreases fuel,
{
    if fuel == 0 || !pages.contains_key(id) {
        Set::empty()
    } else if pages[id].data.len() < BLOB_HEADER_SIZE {
        set![id]
    } else {
        let next = spec_u64_from_le_bytes(pages[id].data.subrange(0, 8));
        if next == 0 {
            set![id]
        } else {
            blob_pages(pages, next, (fuel - 1) as nat).insert(id)
        }
    }
}

/// The pages of one state of the store are among those of another.
pub open spec fn is_part(part: Map<u64, PageView>, whole: Map<u64, PageView>) -> bool {
    forall|p: u64| #[trigger]
        part.contains_key(p) ==> whole.contains_key(p) && part[p] == whole[p]
}

/// A blob has no more pages where some are gone.
pub proof fn lemma_fewer_pages(
    part: Map<u64, PageView>,
    whole: Map<u64, PageView>,
    id: u64,
    fuel: nat,
)
    requires
        is_part(part, whole),
    ensures
        blob_pages(part, id, fuel).subset_of(blob_pages(whole, id, fuel)),
    decreases fuel,
{
    if fuel > 0 && part.contains_key(id) && part[id].data.len() >= BLOB_HEADER_SIZE {
        let next = spec_u64_from_le_bytes(part[id].data.subrange(0, 8));
        if next != 0 {
            lemma_fewer_pages(part, whole, next, (fuel - 1) as nat);
        }
    }
}

/// A blob that can be read is read the same wherever its pages are.
pub proof fn lemma_same_pages(
    pages: Map<u64, PageView>,
    other: Map<u64, PageView>,
    id: u64,
    fuel: nat,
)
    requires
        blob_data(pages, id, fuel) is Ok,
        forall|p: u64| #[trigger]
            blob_pages(pages, id, fuel).contains(p) ==> other.contains_key(p) && other[p]
                == pages[p],
    ensures
        blob_data(other, id, fuel) == blob_data(pages, id, fuel),
        blob_pages(other, id, fuel) == blob_pages(pages, id, fuel),
    decreases fuel,
{
    assert(blob_pages(pages, id, fuel).contains(id));
    let next = spec_u64_from_le_bytes(pages[id].data.subrange(0, 8));
    if next != 0 {
        let rest = blob_pages(pages, next, (fuel - 1) as nat);
        assert forall|p: u64| #[trigger] rest.contains(p) implies other.contains_key(p) && other[p]
            == pages[p] by {
            assert(blob_pages(pages, id, fuel).contains(p));
        }
        lemma_same_pages(pages, other, next, (fuel - 1) as nat);
    }
}

/// A chain of pages is all that its blob takes up.
proof fn lemma_chain_pages(
    pages: Map<u64, PageView>,
    ids: Seq<PageId>,
    chunks: Seq<Seq<u8>>,
    fuel: nat,
    p: u64,
)
    requires
        pages_chain(pages, ids, chunks),
        0 < ids.len(),
        blob_pages(pages, ids[0].0, fuel).contains(p),
    ensures
        exists|i: int| 0 <= i < ids.len() && (#[trigger] ids[i]).0 == p,
    decreases ids.len(),
{
    lemma_auto_spec_u64_to_from_le_bytes();
    let next = next_of(ids, 0);
    let data = pages[ids[0].0].data;
    assert(data.subrange(0, 8) =~= spec_u64_to_le_bytes(next));
    if p == ids[0].0 {
        assert(ids[0].0 == p);
    } else if ids.len() > 1 {
        let ids2 = ids.drop_first();
        let chunks2 = chunks.drop_first();
        assert forall|i: int| 0 <= i < ids2.len() implies (#[trigger] ids2[i]).0 != 0
            && pages.contains_key(ids2[i].0) && pages[ids2[i].0] == blob_page(
            next_of(ids2, i),
            chunks2[i],
        ) by {
            assert(ids2[i] == ids[i + 1]);
            assert(next_of(ids2, i) == next_of(ids, i + 1));
        }
        assert(ids[1].0 != 0);
        lemma_chain_pages(pages, ids2, chunks2, (fuel - 1) as nat, p);
        let i = choose|i: int| 0 <= i < ids2.len() && (#[trigger] ids2[i]).0 == p;
        assert(ids[i + 1].0 == p);
    }
}

/// Reads the blob that starts at a page.
pub fn read_blob_data(pager: &Pager, first: PageId) -> (r: TableResult<Vec<u8>>)
    requires
        pager.wf(),
    ensures
        match r {
            Ok(v) => blob_data(pager.pages(), first.0, pager.slots@.len()) == Ok::<
                Seq<u8>,
                TableError,
            >(v@),
            Err(e) => blob_data(pager.pages(), first.0, pager.slots@.len()) == Err::<
                Seq<u8>,
                TableError,
            >(e),
        },
{
    let ghost pages = pager.pages();
    let ghost whole = blob_data(pages, first.0, pager.slots@.len());
    let mut out: Vec<u8> = Vec::new();
    let mut id: u64 = first.0;
    let mut fuel: usize = pager.slots.len();
    let mut more: bool = true;
    proof {
        if whole is Ok {
            assert(out@ + whole->Ok_0 =~= whole->Ok_0);
        }
    }
    while more
        invariant
            pager.wf(),
            pages == pager.pages(),
            whole == blob_data(pages, first.0, pager.slots@.len()),
            more ==> match blob_data(pages, id, fuel as nat) {
                Ok(rest) => whole == Ok::<Seq<u8>, TableError>(out@ + rest),
                Err(e) => whole == Err::<Seq<u8>, TableError>(e),
            },
            !more ==> whole == Ok::<Seq<u8>, TableError>(out@),
        decreases (if more {
            fuel as int + 1
        } else {
            0
        }),
    {
        if fuel == 0 {
            return Err(TableError::Corruption(Corruption::OverflowCycle(PageId(id))));
        }
        let page = match pager.read_page(PageId(id)) {
            Ok(p) => p,
            Err(e) => {
                return Err(TableError::Pager(e));
            },
        };
        let data = page.data.as_slice();
        if data.len() < BLOB_HEADER_SIZE {
            return Err(TableError::Corruption(Corruption::InvalidOverflowPage(PageId(id))));
        }
        let next: u64 = u64_from_le_bytes(vstd::slice::slice_subrange(data, 0, 8));
        let here = sub_bytes(data, BLOB_HEADER_SIZE, data.len());
        let ghost before = out@;
        append_bytes(&mut out, here.as_slice());
        proof {
            assert(here@ =~= page.data@.skip(8));
            let rest = blob_data(pages, next, (fuel - 1) as nat);
            if next != 0 && rest is Ok {
                assert(before + (here@ + rest->Ok_0) =~= out@ + rest->Ok_0);
            }
        }
        if next == 0 {
            more = false;
        } else {
            id = next;
            fuel -= 1;
        }
    }
    Ok(out)
}

fn cut(value: &[u8], payload: usize) -> (r: Vec<Vec<u8>>)
    requires
        payload > 0,
    ensures
        r@.len() == blob_chunks(value@, payload as int).len(),
        forall|i: int|
            0 <= i < r@.len() ==> (#[trigger] r@[i])@ == blob_chunks(value@, payload as int)[i],
        forall|i: int| 0 <= i < r@.len() ==> (#[trigger] r@[i])@.len() == payload,
        r@.len() > 0,
{
    let ghost all = blob_chunks(value@, payload as int);
    let mut out: Vec<Vec<u8>> = Vec::new();
    let mut at: usize = 0;
    let len: usize = value.len();
    assert(value@.skip(0) =~= value@);
    while len - at > payload
        invariant
            len == value@.len(),
            at <= len,
            payload > 0,
            all.len() == out@.len() + blob_chunks(value@.skip(at as int), payload as int).len(),
            forall|i: int| 0 <= i < out@.len() ==> (#[trigger] out@[i])@ == all[i],
            forall|i: int| 0 <= i < out@.len() ==> (#[trigger] out@[i])@.len() == payload,
            forall|i: int|
                0 <= i < blob_chunks(value@.skip(at as int), payload as int).len()
                    ==> #[trigger] all[out@.len() + i] == blob_chunks(
                    value@.skip(at as int),
                    payload as int,
                )[i],
        decreases len - at,
    {
        let ghost rest = value@.skip(at as int);
        let ghost k = out@.len() as int;
        let ghost tail = blob_chunks(rest, payload as int);
        let chunk = sub_bytes(value, at, at + payload);
        proof {
            assert(chunk@ =~= rest.take(payload as int));
            assert(rest.skip(payload as int) =~= value@.skip(at + payload));
            assert(all[k + 0] == tail[0]);
            let tail2 = blob_chunks(value@.skip(at + payload), payload as int);
            assert(tail =~= seq![rest.take(payload as int)] + tail2);
            assert forall|i: int| 0 <= i < tail2.len() implies #[trigger] all[k + 1 + i]
                == tail2[i] by {
                assert(all[k + (i + 1)] == tail[i + 1]);
            }
        }
        out.push(chunk);
        at = at + payload;
    }
    let ghost rest = value@.skip(at as int);
    let ghost k = out@.len() as int;
    let mut chunk = sub_bytes(value, at, len);
    assert(chunk@ =~= rest);
    append_bytes(&mut chunk, zeros(payload - (len - at)).as_slice());
    proof {
        assert(chunk@ =~= rest + blank(payload - rest.len()));
        assert(blob_chunks(rest, payload as int)[0] == chunk@);
        assert(all[k + 0] == chunk@);
    }
    out.push(chunk);
    out
}

/// Writes a blob to a chain of new pages. Returns the first page and the number of pages.
pub fn write_blob_data(pager: &mut Pager, value: &[u8]) -> (r: (PageId, usize))
    requires
        old(pager).wf(),
    ensures
        final(pager).wf(),
        final(pager).same_meta(old(pager)),
        forall|id: u64| #[trigger]
            old(pager).pages().contains_key(id) ==> final(pager).pages().contains_key(id) && final(pager).pages()[id] == old(pager).pages()[id],
        r.0.0 != 0,
        !old(pager).pages().contains_key(r.0.0),
        exists|ids: Seq<PageId>|
            ids.len() == r.1 && ids.len() > 0 && ids[0] == r.0 && #[trigger] pages_chain(
                final(pager).pages(),
                ids,
                blob_chunks(value@, old(pager).capacity() - BLOB_HEADER_SIZE),
            ),
        r.1 == blob_chunks(value@, old(pager).capacity() - BLOB_HEADER_SIZE).len(),
        r.1 <= final(pager).slots@.len(),
        blob_data(final(pager).pages(), r.0.0, final(pager).slots@.len()) == Ok::<
            Seq<u8>,
            TableError,
        >(padded(value@, old(pager).capacity() - BLOB_HEADER_SIZE)),
        blob_pages(final(pager).pages(), r.0.0, final(pager).slots@.len()).disjoint(
            old(pager).pages().dom(),
        ),
{
    let ghost pages0 = pager.pages();
    let payload: usize = pager.page_size().data_size() - BLOB_HEADER_SIZE;
    let chunks = cut(value, payload);
    let ghost parts = blob_chunks(value@, payload as int);
    let n: usize = chunks.len();
    let mut ids: Vec<PageId> = Vec::new();
    let mut i: usize = 0;
    while i < n
        invariant
            i <= n,
            pager.wf(),
            pager.same_meta(old(pager)),
            ids@.len() == i,
            ids@.no_duplicates(),
            pager.slots@.len() == old(pager).slots@.len() + i,
            forall|j: int|
                0 <= j < i ==> (#[trigger] ids@[j]).0 != 0 && pager.pages().contains_key(ids@[j].0)
                    && !pages0.contains_key(ids@[j].0),
            forall|id: u64| #[trigger]
                pages0.contains_key(id) ==> pager.pages().contains_key(id) && pager.pages()[id]
                    == pages0[id],
        decreases n - i,
    {
        let ghost ids0 = ids@;
        let ghost pages1 = pager.pages();
        let id = pager.allocate_page(PageType::Overflow);
        ids.push(id);
        proof {
            assert(ids@ == ids0.push(id));
            assert forall|j: int| 0 <= j < i implies (#[trigger] ids0[j]).0 != id.0 by {
                assert(pages1.contains_key(ids0[j].0));
            }
            assert forall|j: int| 0 <= j < i + 1 implies (#[trigger] ids@[j]).0 != 0
                && pager.pages().contains_key(ids@[j].0) && !pages0.contains_key(ids@[j].0) by {
                if j < i {
                    assert(ids0[j] == ids@[j]);
                    assert(pages1.contains_key(ids0[j].0));
                }
            }
        }
        i += 1;
    }
    let mut k: usize = 0;
    while k < n
        invariant
            k <= n,
            n == ids@.len() == chunks@.len() == parts.len(),
            pager.wf(),
            pager.same_meta(old(pager)),
            payload + BLOB_HEADER_SIZE == pager.capacity(),
            pager.slots@.len() == old(pager).slots@.len() + n,
            ids@.no_duplicates(),
            forall|j: int| 0 <= j < n ==> (#[trigger] chunks@[j])@ == parts[j],
            forall|j: int| 0 <= j < n ==> (#[trigger] chunks@[j])@.len() == payload,
            forall|j: int|
                0 <= j < n ==> (#[trigger] ids@[j]).0 != 0 && pager.pages().contains_key(ids@[j].0)
                    && !pages0.contains_key(ids@[j].0),
            forall|j: int|
                0 <= j < k ==> pager.pages()[(#[trigger] ids@[j]).0] == blob_page(
                    next_of(ids@, j),
                    parts[j],
                ),
            forall|id: u64| #[trigger]
                pages0.contains_key(id) ==> pager.pages().contains_key(id) && pager.pages()[id]
                    == pages0[id],
        decreases n - k,
    {
        let ghost pages1 = pager.pages();
        let next: u64 = if k + 1 < n {
            ids[k + 1].0
        } else {
            0
        };
        let id = ids[k];
        let mut page = Page::new(id, PageType::Overflow);
        append_bytes(&mut page.data, u64_to_le_bytes(next).as_slice());
        append_bytes(&mut page.data, chunks[k].as_slice());
        let ghost contents = page.contents();
        proof {
            lemma_auto_spec_u64_to_from_le_bytes();
            assert(page.data@ =~= spec_u64_to_le_bytes(next) + parts[k as int]);
            assert(contents == blob_page(next_of(ids@, k as int), parts[k as int]));
            assert(pages1.contains_key(ids@[k as int].0));
        }
        let written = pager.write_page(page);
        proof {
            assert(written is Ok);
            assert forall|j: int| 0 <= j < k + 1 implies pager.pages()[(#[trigger] ids@[j]).0]
                == blob_page(next_of(ids@, j), parts[j]) by {
                if j < k {
                    assert(ids@[j] != ids@[k as int]);
                    assert(ids@[j].0 != id.0);
                }
            }
            assert forall|j: int| 0 <= j < n implies (#[trigger] ids@[j]).0 != 0
                && pager.pages().contains_key(ids@[j].0) && !pages0.contains_key(ids@[j].0) by {
                assert(pages1.contains_key(ids@[j].0));
            }
        }
        k += 1;
    }
    proof {
        assert(pages_chain(pager.pages(), ids@, parts));
        assert(payload as int == old(pager).capacity() - BLOB_HEADER_SIZE);
        law_chain_is_read_back(pager.pages(), ids@, parts, pager.slots@.len());
        let taken = blob_pages(pager.pages(), ids@[0].0, pager.slots@.len());
        assert forall|p: u64| #[trigger] taken.contains(p) implies !pages0.contains_key(p) by {
            lemma_chain_pages(pager.pages(), ids@, parts, pager.slots@.len(), p);
        }
        assert(taken.disjoint(pages0.dom()));
    }
    (ids[0], n)
}

/// The pages that are left when the blob that starts at a page is released, as far as it can be
/// followed.
pub open spec fn blob_freed(pages: Map<u64, PageView>, id: u64, fuel: nat) -> Map<u64, PageView>
    decreases fuel,
{
    if fuel == 0 || !pages.contains_key(id) || pages[id].data.len() < BLOB_HEADER_SIZE {
        pages
    } else {
        let next = spec_u64_from_le_bytes(pages[id].data.subrange(0, 8));
        if next == 0 {
            pages.remove(id)
        } else {
            blob_freed(pages.remove(id), next, (fuel - 1) as nat)
        }
    }
}

/// Releasing a blob takes its pages alone.
pub proof fn lemma_freed(pages: Map<u64, PageView>, id: u64, fuel: nat)
    ensures
        is_part(blob_freed(pages, id, fuel), pages),
        forall|p: u64|
            pages.contains_key(p) && !blob_pages(pages, id, fuel).contains(p)
                ==> #[trigger] blob_freed(pages, id, fuel).contains_key(p),
    decreases fuel,
{
    if fuel > 0 && pages.contains_key(id) && pages[id].data.len() >= BLOB_HEADER_SIZE {
        let next = spec_u64_from_le_bytes(pages[id].data.subrange(0, 8));
        if next != 0 {
            let left = pages.remove(id);
            lemma_freed(left, next, (fuel - 1) as nat);
            lemma_fewer_pages(left, pages, next, (fuel - 1) as nat);
            let freed = blob_freed(pages, id, fuel);
            assert forall|p: u64| #[trigger] freed.contains_key(p) implies pages.contains_key(p)
                && freed[p] == pages[p] by {
                assert(left.contains_key(p));
            }
            assert forall|p: u64|
                pages.contains_key(p) && !blob_pages(pages, id, fuel).contains(p) implies
                #[trigger] freed.contains_key(p) by {
                assert(left.contains_key(p));
                assert(!blob_pages(pages, next, (fuel - 1) as nat).contains(p));
            }
        }
    }
}

/// Releasing a blob leaves every blob that shares no page with it as it is.
pub proof fn law_release_keeps_others(
    pages: Map<u64, PageView>,
    released: u64,
    other: u64,
    fuel: nat,
)
    requires
        blob_data(pages, other, fuel) is Ok,
        blob_pages(pages, released, fuel).disjoint(blob_pages(pages, other, fuel)),
    ensures
        blob_data(blob_freed(pages, released, fuel), other, fuel) == blob_data(pages, other, fuel),
{
    lemma_freed(pages, released, fuel);
    lemma_known_pages(pages, other, fuel);
    let left = blob_freed(pages, released, fuel);
    assert forall|p: u64| #[trigger] blob_pages(pages, other, fuel).contains(p) implies
        left.contains_key(p) && left[p] == pages[p] by {
        assert(!blob_pages(pages, released, fuel).contains(p));
    }
    lemma_same_pages(pages, left, other, fuel);
}

/// The pages follow one another as those of a blob, and the last has none after it.
pub open spec fn is_page_chain(pages: Map<u64, PageView>, ids: Seq<u64>) -> bool {
    forall|i: int|
        0 <= i < ids.len() ==> #[trigger] ids[i] != 0 && pages.contains_key(ids[i])
            && pages[ids[i]].data.len() >= BLOB_HEADER_SIZE && spec_u64_from_le_bytes(
            pages[ids[i]].data.subrange(0, 8),
        ) == (if i + 1 < ids.len() {
            ids[i + 1]
        } else {
            0
        })
}

/// Releasing a blob takes every page of it.
pub proof fn law_release_takes_every_page(
    pages: Map<u64, PageView>,
    ids: Seq<u64>,
    fuel: nat,
    p: u64,
)
    requires
        0 < ids.len() <= fuel,
        is_page_chain(pages, ids),
        ids.no_duplicates(),
    ensures
        blob_freed(pages, ids[0], fuel).contains_key(p) <==> pages.contains_key(p) && !ids.contains(
            p,
        ),
    decreases ids.len(),
{
    let id = ids[0];
    let left = pages.remove(id);
    let rest = ids.drop_first();
    if ids.contains(p) && p != id {
        assert(rest[ids.index_of(p) - 1] == p);
    }
    if rest.contains(p) {
        assert(ids[rest.index_of(p) + 1] == p);
    }
    if rest.len() > 0 {
        assert(is_page_chain(left, rest)) by {
            assert forall|i: int| 0 <= i < rest.len() implies #[trigger] rest[i] != 0
                && left.contains_key(rest[i]) && left[rest[i]].data.len() >= BLOB_HEADER_SIZE
                && spec_u64_from_le_bytes(left[rest[i]].data.subrange(0, 8)) == (if i + 1
                < rest.len() {
                rest[i + 1]
            } else {
                0
            }) by {
                assert(rest[i] == ids[i + 1]);
                assert(ids[i + 1] != ids[0]);
            }
        }
        law_release_takes_every_page(left, rest, (fuel - 1) as nat, p);
        assert(rest[0] == ids[1]);
    } else {
        assert(ids[0] == id);
    }
}

/// The pages of a blob are pages of the store.
pub proof fn lemma_known_pages(pages: Map<u64, PageView>, id: u64, fuel: nat)
    ensures
        forall|p: u64| #[trigger]
            blob_pages(pages, id, fuel).contains(p) ==> pages.contains_key(p),
    decreases fuel,
{
    if fuel > 0 && pages.contains_key(id) && pages[id].data.len() >= BLOB_HEADER_SIZE {
        let next = spec_u64_from_le_bytes(pages[id].data.subrange(0, 8));
        if next != 0 {
            lemma_known_pages(pages, next, (fuel - 1) as nat);
            assert forall|p: u64| #[trigger] blob_pages(pages, id, fuel).contains(p) implies
                pages.contains_key(p) by {
                if p != id {
                    assert(blob_pages(pages, next, (fuel - 1) as nat).contains(p));
                }
            }
        }
    }
}

/// Releases the pages of a blob. Stops at the first page that cannot be followed.
pub fn free_blob_pages(pager: &mut Pager, first: PageId)
    requires
        old(pager).wf(),
    ensures
        final(pager).wf(),
        final(pager).same_meta(old(pager)),
        final(pager).slots@.len() == old(pager).slots@.len(),
        final(pager).pages() == blob_freed(old(pager).pages(), first.0, old(pager).slots@.len()),
{
    let ghost whole = blob_freed(pager.pages(), first.0, pager.slots@.len());
    let mut id: u64 = first.0;
    let mut fuel: usize = pager.slots.len();
    while fuel > 0
        invariant
            pager.wf(),
            pager.same_meta(old(pager)),
            pager.slots@.len() == old(pager).slots@.len(),
            whole == blob_freed(old(pager).pages(), first.0, old(pager).slots@.len()),
            whole == blob_freed(pager.pages(), id, fuel as nat),
        decreases fuel,
    {
        let page = match pager.read_page(PageId(id)) {
            Ok(p) => p,
            Err(_) => {
                return;
            },
        };
        if page.data.len() < BLOB_HEADER_SIZE {
            return;
        }
        let next: u64 = u64_from_le_bytes(
            vstd::slice::slice_subrange(page.data.as_slice(), 0, 8),
        );
        let _ = pager.free_page(PageId(id));
        if next == 0 {
            return;
        }
        id = next;
        fuel -= 1;
    }
}

} // verus!
