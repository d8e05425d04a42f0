//! Values that are streamed into overflow pages.
use crate::btree::paged::{nodes, resolve, PagedBTree};
use crate::btree::tree::{kept, lemma_frame, lemma_owned_is_node, lookup, owns};
use crate::bytes::append_bytes;
use crate::overflow::{
    chain_data, lemma_overflow_round_trip, link_overflow_pages, overflow_bytes, parse_overflow,
    write_overflow_page, ValueRef, OVERFLOW_HEADER_SIZE,
};
use crate::pager::{PageId, PageType, PageView, Pager};
use crate::stream::{ValueStream, CHUNK_SIZE};
use crate::table::{TableError, TableResult};
use vstd::prelude::*;

verus! {

/// Several byte strings one after the other.
pub open spec fn joined(chunks: Seq<Seq<u8>>) -> Seq<u8>
    decreases chunks.len(),
{
    if chunks.len() == 0 {
        Seq::empty()
    } else {
        joined(chunks.drop_last()) + chunks.last()
    }
}

/// Several byte strings from the `i`-th on, one after the other.
pub open spec fn joined_from(chunks: Seq<Seq<u8>>, i: int) -> Seq<u8>
    decreases chunks.len() - i,
{
    if i < 0 || i >= chunks.len() {
        Seq::empty()
    } else {
        chunks[i] + joined_from(chunks, i + 1)
    }
}

pub proof fn lemma_joined_from(chunks: Seq<Seq<u8>>, i: int)
    requires
        0 <= i <= chunks.len(),
    ensures
        joined(chunks.take(i)) + joined_from(chunks, i) == joined(chunks),
    decreases chunks.len() - i,
{
    if i < chunks.len() {
        lemma_joined_from(chunks, i + 1);
        assert(chunks.take(i + 1).drop_last() =~= chunks.take(i));
        assert(chunks.take(i + 1).last() == chunks[i]);
        assert(joined(chunks.take(i)) + joined_from(chunks, i) =~= joined(chunks.take(i + 1))
            + joined_from(chunks, i + 1));
    } else {
        assert(chunks.take(i) =~= chunks);
        assert(joined(chunks) + Seq::<u8>::empty() =~= joined(chunks));
    }
}

/// The page that follows the `i`-th one.
pub open spec fn next_id(ids: Seq<PageId>, i: int) -> u64 {
    if i + 1 < ids.len() {
        ids[i + 1].0
    } else {
        0
    }
}

/// The overflow pages hold the chunks, each followed by the next.
pub open spec fn holds_chunks(
    pages: Map<u64, PageView>,
    ids: Seq<PageId>,
    chunks: Seq<Seq<u8>>,
) -> bool {
    &&& ids.len() == chunks.len()
    &&& forall|i: int|
        0 <= i < ids.len() ==> {
            &&& pages.contains_key((#[trigger] ids[i]).0)
            &&& ids[i].0 != 0
            &&& chunks[i].len() <= u32::MAX
            &&& pages[ids[i].0].data == overflow_bytes(next_id(ids, i), chunks[i])
        }
}

/// What a chain of overflow pages holds is its chunks.
pub proof fn lemma_chunks_read(
    pages: Map<u64, PageView>,
    ids: Seq<PageId>,
    chunks: Seq<Seq<u8>>,
    i: int,
    fuel: nat,
)
    requires
        holds_chunks(pages, ids, chunks),
        0 <= i < ids.len(),
        fuel >= ids.len() - i,
    ensures
        chain_data(pages, ids[i].0, fuel) == Ok::<Seq<u8>, TableError>(joined_from(chunks, i)),
    decreases ids.len() - i,
{
    lemma_overflow_round_trip(next_id(ids, i), chunks[i]);
    if i + 1 < ids.len() {
        lemma_chunks_read(pages, ids, chunks, i + 1, (fuel - 1) as nat);
    } else {
        assert(chain_data(pages, 0, (fuel - 1) as nat) == Ok::<Seq<u8>, TableError>(Seq::empty()));
        assert(joined_from(chunks, i + 1) == Seq::<u8>::empty());
    }
}

/// The pages of `pages` are in `pages2` as they were.
pub open spec fn all_kept(pages: Map<u64, PageView>, pages2: Map<u64, PageView>) -> bool {
    forall|p: u64| #[trigger]
        pages.contains_key(p) ==> pages2.contains_key(p) && pages2[p] == pages[p]
}

/// A tree survives where all pages are kept.
pub proof fn lemma_tree_survives(table: PagedBTree, pager: Pager, pager2: Pager)
    requires
        table.wf(&pager),
        pager2.wf(),
        pager2.size == pager.size,
        all_kept(pager.pages(), pager2.pages()),
    ensures
        table.wf(&pager2),
        table.chains(&pager2) == table.chains(&pager),
        forall|p: u64| #[trigger] table.owns_page(&pager2, p) == table.owns_page(&pager, p),
        forall|k: Seq<u8>| #[trigger] table.find(&pager2, k) == table.find(&pager, k),
{
    let n = nodes(pager.pages());
    let n2 = nodes(pager2.pages());
    let root = table.root_page_id.0;
    let h = table.height@;
    assert forall|p: u64| #[trigger] owns(n, root, h, p) implies kept(n, n2, p) by {
        lemma_owned_is_node(n, root, h, None, None, 0, p);
    }
    lemma_frame(n, n2, root, h, None, None, 0);
    assert forall|p: u64| #[trigger] table.owns_page(&pager2, p) == table.owns_page(
        &pager,
        p,
    ) by {
        assert(owns(n2, root, h, p) == owns(n, root, h, p));
    }
    assert forall|k: Seq<u8>| #[trigger] table.find(&pager2, k) == table.find(&pager, k) by {
        assert(lookup(n2, root, h, k) == lookup(n, root, h, k));
    }
    assert(table.chains(&pager2) =~= table.chains(&pager));
}

/// The reference to a value in overflow pages.
pub open spec fn reference_to(ids: Seq<PageId>, len: int) -> ValueRef {
    if ids.len() == 1 {
        ValueRef::SinglePage {
            page_id: ids[0].0 as u32,
            offset: OVERFLOW_HEADER_SIZE as u16,
            length: len as u32,
        }
    } else {
        ValueRef::OverflowChain {
            first_page_id: ids[0].0 as u32,
            total_length: len as u64,
            page_count: ids.len() as u32,
        }
    }
}

/// A reference to overflow pages resolves to what they hold, where the page number fits it.
pub proof fn law_reference_resolves(
    pages: Map<u64, PageView>,
    fuel: nat,
    ids: Seq<PageId>,
    chunks: Seq<Seq<u8>>,
)
    requires
        holds_chunks(pages, ids, chunks),
        ids.len() > 0,
        fuel >= ids.len(),
        ids[0].0 <= u32::MAX,
        joined(chunks).len() > 0,
        joined(chunks).len() <= u64::MAX,
    ensures
        resolve(pages, fuel, reference_to(ids, joined(chunks).len() as int).bytes()) == Ok::<
            Option<Seq<u8>>,
            TableError,
        >(Some(joined(chunks))),
{
    let value = joined(chunks);
    let r = reference_to(ids, value.len() as int);
    r.law_round_trip();
    assert(r.bytes().len() > 0) by {
        if r.bytes().len() == 0 {
            assert(ValueRef::parse(r.bytes()) is None);
        }
    }
    lemma_joined_from(chunks, 0);
    assert(chunks.take(0) =~= Seq::empty());
    assert(joined(chunks.take(0)) + joined_from(chunks, 0) =~= joined_from(chunks, 0));
    let id = ids[0];
    assert(pages.contains_key(id.0));
    if ids.len() == 1 {
        lemma_overflow_round_trip(0, chunks[0]);
        assert(joined_from(chunks, 1) =~= Seq::empty());
        assert(value =~= chunks[0]);
        assert(pages[id.0].data.subrange(12, 12 + value.len() as int) =~= value) by {
            let b = overflow_bytes(0, chunks[0]);
            assert(parse_overflow(b) == Some((0u64, chunks[0])));
        }
    } else {
        lemma_chunks_read(pages, ids, chunks, 0, fuel);
    }
}

/// Writes a chunk to a new overflow page behind the last one.
fn write_overflow_chunk(
    pager: &mut Pager,
    ids: &mut Vec<PageId>,
    data: &[u8],
    Ghost(chunks): Ghost<Seq<Seq<u8>>>,
)
    requires
        old(pager).wf(),
        OVERFLOW_HEADER_SIZE + data@.len() <= old(pager).capacity(),
        holds_chunks(old(pager).pages(), old(ids)@, chunks),
        forall|i: int|
            0 <= i < chunks.len() ==> OVERFLOW_HEADER_SIZE + (#[trigger] chunks[i]).len() <= old(pager).capacity(),
        forall|i: int, j: int| 0 <= i < j < old(ids)@.len() ==> old(ids)@[i] != old(ids)@[j],
    ensures
        final(pager).wf(),
        final(pager).same_meta(old(pager)),
        final(pager).slots@.len() >= old(pager).slots@.len() + 1,
        ({
            let new = final(ids)@.last();
            &&& final(ids)@ == old(ids)@.push(new)
            &&& !old(pager).pages().contains_key(new.0)
            &&& holds_chunks(final(pager).pages(), final(ids)@, chunks.push(data@))
            &&& final(pager).pages().dom() == old(pager).pages().dom().insert(new.0)
            &&& forall|p: u64| #[trigger]
                old(pager).pages().contains_key(p) && !old(ids)@.contains(PageId(p)) ==> final(pager).pages()[p] == old(pager).pages()[p]
        }),
{
    let ghost pages0 = pager.pages();
    let ghost ids0 = ids@;
    let id = pager.allocate_page(PageType::Overflow);
    let ghost pages1 = pager.pages();
    let n: usize = ids.len();
    if n > 0 {
        let prev = ids[n - 1];
        proof {
            assert(pages0.contains_key(ids0[n - 1].0));
            lemma_overflow_round_trip(0, chunks[n - 1]);
            assert(OVERFLOW_HEADER_SIZE + chunks[n - 1].len() <= pager.capacity());
        }
        let _ = link_overflow_pages(pager, prev, id);
    }
    let ghost pages2 = pager.pages();
    let _ = write_overflow_page(pager, id, data, 0);
    ids.push(id);
    proof {
        let chunks2 = chunks.push(data@);
        let pages3 = pager.pages();
        assert(pages3.dom() =~= pages0.dom().insert(id.0));
        assert forall|i: int| 0 <= i < ids@.len() implies {
            &&& pages3.contains_key((#[trigger] ids@[i]).0)
            &&& ids@[i].0 != 0
            &&& chunks2[i].len() <= u32::MAX
            &&& pages3[ids@[i].0].data == overflow_bytes(next_id(ids@, i), chunks2[i])
        } by {
            if i < n {
                assert(ids@[i] == ids0[i]);
                assert(pages0.contains_key(ids0[i].0));
                if i < n - 1 {
                    assert(ids0[i] != ids0[n - 1]);
                    assert(ids@[i + 1] == ids0[i + 1]);
                }
            }
        }
        assert forall|p: u64| #[trigger]
            pages0.contains_key(p) && !ids0.contains(PageId(p)) implies pages3[p]
            == pages0[p] by {
            if n > 0 && p == ids0[n - 1].0 {
                assert(ids0[n - 1] == PageId(p));
            }
        }
    }
}

/// Releases overflow pages.
fn release_pages(pager: &mut Pager, ids: &Vec<PageId>, Ghost(before): Ghost<Map<u64, PageView>>)
    requires
        old(pager).wf(),
        forall|i: int| 0 <= i < ids@.len() ==> !before.contains_key((#[trigger] ids@[i]).0),
        forall|i: int, j: int| 0 <= i < j < ids@.len() ==> ids@[i] != ids@[j],
        forall|p: u64| #[trigger]
            old(pager).pages().contains_key(p) <==> before.contains_key(p) || ids@.contains(
                PageId(p),
            ),
        all_kept(before, old(pager).pages()),
    ensures
        final(pager).wf(),
        final(pager).same_meta(old(pager)),
        final(pager).pages() == before,
{
    let n: usize = ids.len();
    let mut i: usize = 0;
    assert(ids@.skip(0) =~= ids@);
    while i < n
        invariant
            n == ids@.len(),
            i <= n,
            pager.wf(),
            pager.same_meta(old(pager)),
            forall|j: int| 0 <= j < ids@.len() ==> !before.contains_key((#[trigger] ids@[j]).0),
            forall|a: int, b: int| 0 <= a < b < ids@.len() ==> ids@[a] != ids@[b],
            forall|p: u64| #[trigger]
                pager.pages().contains_key(p) <==> before.contains_key(p) || ids@.skip(
                    i as int,
                ).contains(PageId(p)),
            all_kept(before, pager.pages()),
        decreases n - i,
    {
        let ghost pages = pager.pages();
        let id = ids[i];
        proof {
            assert(ids@.skip(i as int)[0] == id);
            assert(!before.contains_key(ids@[i as int].0));
        }
        let _ = pager.free_page(id);
        proof {
            assert forall|p: u64| #[trigger]
                pager.pages().contains_key(p) <==> before.contains_key(p) || ids@.skip(
                    i + 1,
                ).contains(PageId(p)) by {
                if ids@.skip(i + 1).contains(PageId(p)) {
                    let j = ids@.skip(i + 1).index_of(PageId(p));
                    assert(ids@.skip(i as int)[j + 1] == PageId(p));
                    assert(ids@[i as int] != ids@[i + 1 + j]);
                }
                if pages.contains_key(p) && p != id.0 && !before.contains_key(p) {
                    let j = ids@.skip(i as int).index_of(PageId(p));
                    assert(ids@.skip(i as int)[j] == PageId(p));
                    assert(j > 0);
                    assert(ids@.skip(i + 1)[j - 1] == PageId(p));
                }
            }
        }
        i += 1;
    }
    proof {
        assert(ids@.skip(n as int) =~= Seq::empty());
        assert(pager.pages() =~= before);
    }
}

/// The chunks fill one page after the other: all are full but the last, which holds something.
pub open spec fn fills_pages(chunks: Seq<Seq<u8>>, size: int) -> bool {
    forall|i: int|
        0 <= i < chunks.len() ==> {
            &&& 0 < (#[trigger] chunks[i]).len() <= size
            &&& i + 1 < chunks.len() ==> chunks[i].len() == size
        }
}

/// What is true of overflow pages that were written to a store in front of the pages `before`.
pub open spec fn pages_added(
    before: Map<u64, PageView>,
    after: Map<u64, PageView>,
    ids: Seq<PageId>,
    chunks: Seq<Seq<u8>>,
) -> bool {
    &&& holds_chunks(after, ids, chunks)
    &&& all_kept(before, after)
    &&& forall|i: int| 0 <= i < ids.len() ==> !before.contains_key((#[trigger] ids[i]).0)
    &&& forall|i: int, j: int| 0 <= i < j < ids.len() ==> ids[i] != ids[j]
    &&& forall|p: u64| #[trigger]
        after.contains_key(p) <==> before.contains_key(p) || ids.contains(PageId(p))
}

/// Writes the chunk in `page` behind the last one and empties it.
fn write_full_page(
    pager: &mut Pager,
    ids: &mut Vec<PageId>,
    page: &mut Vec<u8>,
    Ghost(before): Ghost<Map<u64, PageView>>,
    Ghost(chunks): Ghost<Seq<Seq<u8>>>,
)
    requires
        old(pager).wf(),
        OVERFLOW_HEADER_SIZE + old(page)@.len() <= old(pager).capacity(),
        forall|i: int|
            0 <= i < chunks.len() ==> OVERFLOW_HEADER_SIZE + (#[trigger] chunks[i]).len()
                <= old(pager).capacity(),
        pages_added(before, old(pager).pages(), old(ids)@, chunks),
        old(pager).slots@.len() >= old(ids)@.len(),
    ensures
        final(pager).wf(),
        final(pager).same_meta(old(pager)),
        final(page)@.len() == 0,
        final(ids)@.len() == old(ids)@.len() + 1,
        final(pager).slots@.len() >= final(ids)@.len(),
        pages_added(before, final(pager).pages(), final(ids)@, chunks.push(old(page)@)),
{
    let ghost pages0 = pager.pages();
    let ghost ids0 = ids@;
    write_overflow_chunk(pager, ids, page.as_slice(), Ghost(chunks));
    page.clear();
    proof {
        let new = ids@.last();
        assert forall|i: int, j: int| 0 <= i < j < ids@.len() implies ids@[i] != ids@[j] by {
            if j == ids0.len() {
                assert(pages0.contains_key(ids0[i].0));
            } else {
                assert(ids0[i] != ids0[j]);
            }
        }
        assert forall|i: int| 0 <= i < ids@.len() implies !before.contains_key(
            (#[trigger] ids@[i]).0,
        ) by {
            if i < ids0.len() {
                assert(ids@[i] == ids0[i]);
            } else if before.contains_key(new.0) {
                assert(pages0.contains_key(new.0));
            }
        }
        assert forall|p: u64| #[trigger]
            pager.pages().contains_key(p) <==> before.contains_key(p) || ids@.contains(
                PageId(p),
            ) by {
            assert(pager.pages().dom().contains(p) == (pages0.dom().contains(p) || p == new.0));
            if ids@.contains(PageId(p)) {
                let i = ids@.index_of(PageId(p));
                if i < ids0.len() {
                    assert(ids0[i] == PageId(p));
                    assert(pages0.contains_key(ids0[i].0));
                }
            }
            if pages0.contains_key(p) && !before.contains_key(p) {
                let i = ids0.index_of(PageId(p));
                assert(ids@[i] == PageId(p));
            }
            if p == new.0 {
                assert(ids@[ids0.len() as int] == PageId(p));
            }
        }
        assert forall|p: u64| #[trigger] before.contains_key(p) implies pager.pages().contains_key(
            p,
        ) && pager.pages()[p] == before[p] by {
            assert(pages0.contains_key(p));
            if ids0.contains(PageId(p)) {
                let i = ids0.index_of(PageId(p));
                assert(!before.contains_key(ids0[i].0));
            }
        }
    }
}

/// Writes bytes behind what `page` holds, page by page as they fill up. Returns the chunks of all
/// pages written so far.
fn write_bytes(
    pager: &mut Pager,
    ids: &mut Vec<PageId>,
    page: &mut Vec<u8>,
    bytes: &[u8],
    usable: usize,
    Ghost(before): Ghost<Map<u64, PageView>>,
    Ghost(chunks0): Ghost<Seq<Seq<u8>>>,
) -> (r: Ghost<Seq<Seq<u8>>>)
    requires
        old(pager).wf(),
        0 < usable == old(pager).capacity() - OVERFLOW_HEADER_SIZE,
        old(page)@.len() < usable,
        pages_added(before, old(pager).pages(), old(ids)@, chunks0),
        old(pager).slots@.len() >= old(ids)@.len(),
        forall|i: int| 0 <= i < chunks0.len() ==> (#[trigger] chunks0[i]).len() == usable,
    ensures
        final(pager).wf(),
        final(pager).same_meta(old(pager)),
        final(page)@.len() < usable,
        pages_added(before, final(pager).pages(), final(ids)@, r@),
        final(pager).slots@.len() >= final(ids)@.len(),
        forall|i: int| 0 <= i < r@.len() ==> (#[trigger] r@[i]).len() == usable,
        joined(r@) + final(page)@ == joined(chunks0) + old(page)@ + bytes@,
{
    let ghost mut chunks = chunks0;
    let ghost all = joined(chunks0) + page@ + bytes@;
    let n: usize = bytes.len();
    let mut offset: usize = 0;
    assert(bytes@.skip(0) =~= bytes@);
    while offset < n
        invariant
            pager.wf(),
            pager.same_meta(old(pager)),
            0 < usable == pager.capacity() - OVERFLOW_HEADER_SIZE,
            offset <= n == bytes@.len(),
            page@.len() < usable,
            pages_added(before, pager.pages(), ids@, chunks),
            pager.slots@.len() >= ids@.len(),
            forall|i: int| 0 <= i < chunks.len() ==> (#[trigger] chunks[i]).len() == usable,
            joined(chunks) + page@ + bytes@.skip(offset as int) == all,
        decreases n - offset,
    {
        let room: usize = usable - page.len();
        let to_copy: usize = if n - offset < room {
            n - offset
        } else {
            room
        };
        let ghost page0 = page@;
        append_bytes(page, vstd::slice::slice_subrange(bytes, offset, offset + to_copy));
        proof {
            assert(bytes@.skip(offset as int) =~= bytes@.subrange(
                offset as int,
                offset + to_copy,
            ) + bytes@.skip(offset + to_copy));
            assert(joined(chunks) + page@ + bytes@.skip(offset + to_copy) =~= joined(chunks)
                + page0 + bytes@.skip(offset as int));
        }
        offset = offset + to_copy;
        if page.len() >= usable {
            let ghost last = page@;
            write_full_page(pager, ids, page, Ghost(before), Ghost(chunks));
            proof {
                let more = chunks.push(last);
                assert(more.drop_last() =~= chunks);
                assert(joined(more) == joined(chunks) + last);
                assert(joined(more) + page@ + bytes@.skip(offset as int) =~= joined(chunks) + last
                    + bytes@.skip(offset as int));
                chunks = more;
            }
        }
    }
    proof {
        assert(joined(chunks) + page@ + bytes@.skip(n as int) =~= joined(chunks) + page@);
    }
    Ghost(chunks)
}

/// Writes bytes and what is left of a stream behind them into new overflow pages. Fails only
/// where the stream does, with its error; the pages are released again then.
pub fn write_stream<S: ValueStream>(pager: &mut Pager, front: &[u8], stream: &mut S) -> (r:
    TableResult<(Vec<PageId>, Ghost<Seq<Seq<u8>>>)>)
    requires
        old(pager).wf(),
    ensures
        final(pager).wf(),
        final(pager).same_meta(old(pager)),
        old(stream).sound() ==> r is Ok && final(stream).sound(),
        match r {
            Ok((ids, chunks)) => {
                &&& pages_added(old(pager).pages(), final(pager).pages(), ids@, chunks@)
                &&& final(pager).slots@.len() >= ids@.len()
                &&& joined(chunks@) == front@ + old(stream).remaining()
                &&& fills_pages(chunks@, old(pager).capacity() - OVERFLOW_HEADER_SIZE)
                &&& final(stream).remaining().len() == 0
            },
            Err(e) => {
                &&& final(pager).pages() == old(pager).pages()
                &&& final(stream).failure() == Some(e)
            },
        },
{
    let ghost before = pager.pages();
    let ghost all = front@ + stream.remaining();
    let usable: usize = pager.page_size().data_size() - OVERFLOW_HEADER_SIZE;
    let mut ids: Vec<PageId> = Vec::new();
    let mut page: Vec<u8> = Vec::new();
    let mut chunk: Vec<u8> = Vec::new();
    let mut filled: usize = 0;
    while filled < CHUNK_SIZE
        invariant
            filled <= CHUNK_SIZE,
            chunk@.len() == filled,
        decreases CHUNK_SIZE - filled,
    {
        chunk.push(0);
        filled += 1;
    }
    let ghost none: Seq<Seq<u8>> = Seq::empty();
    proof {
        assert forall|p: u64| #[trigger]
            pager.pages().contains_key(p) <==> before.contains_key(p) || ids@.contains(
                PageId(p),
            ) by {
            if ids@.contains(PageId(p)) {
                let i = ids@.index_of(PageId(p));
                assert(0 <= i < ids@.len());
            }
        }
    }
    let mut chunks: Ghost<Seq<Seq<u8>>> = write_bytes(
        pager,
        &mut ids,
        &mut page,
        front,
        usable,
        Ghost(before),
        Ghost(none),
    );
    proof {
        assert(joined(none) + Seq::<u8>::empty() + front@ =~= front@);
        assert(joined(chunks@) + page@ + stream.remaining() =~= all);
    }
    loop
        invariant
            pager.wf(),
            pager.same_meta(old(pager)),
            before == old(pager).pages(),
            all == front@ + old(stream).remaining(),
            0 < usable == pager.capacity() - OVERFLOW_HEADER_SIZE,
            chunk@.len() == CHUNK_SIZE,
            page@.len() < usable,
            pages_added(before, pager.pages(), ids@, chunks@),
            pager.slots@.len() >= ids@.len(),
            forall|i: int| 0 <= i < chunks@.len() ==> (#[trigger] chunks@[i]).len() == usable,
            joined(chunks@) + page@ + stream.remaining() == all,
            old(stream).sound() ==> stream.sound(),
        decreases stream.remaining().len(),
    {
        let n: usize = match stream.read(chunk.as_mut_slice()) {
            Ok(n) => n,
            Err(e) => {
                release_pages(pager, &ids, Ghost(before));
                return Err(e);
            },
        };
        if n == 0 {
            proof {
                assert(chunk@.take(0) + stream.remaining() =~= stream.remaining());
                assert(joined(chunks@) + page@ + Seq::<u8>::empty() =~= joined(chunks@) + page@);
            }
            if page.len() > 0 {
                let ghost last = page@;
                let ghost more = chunks@.push(last);
                write_full_page(pager, &mut ids, &mut page, Ghost(before), Ghost(chunks@));
                proof {
                    assert(more.drop_last() =~= chunks@);
                    assert(joined(more) == joined(chunks@) + last);
                }
                return Ok((ids, Ghost(more)));
            }
            proof {
                assert(joined(chunks@) + page@ =~= joined(chunks@));
            }
            return Ok((ids, chunks));
        }
        let ghost (chunks0, page0) = (chunks@, page@);
        let piece = vstd::slice::slice_subrange(chunk.as_slice(), 0, n);
        let ghost part = piece@;
        chunks = write_bytes(
            pager,
            &mut ids,
            &mut page,
            piece,
            usable,
            Ghost(before),
            Ghost(chunks0),
        );
        proof {
            assert(part =~= chunk@.take(n as int));
            assert(joined(chunks@) + page@ + stream.remaining() =~= joined(chunks0) + page0 + (
            part + stream.remaining()));
        }
    }
}

} // verus!
