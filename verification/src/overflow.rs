//! Values outside the tree: references to them and the chains of pages that hold them.
use crate::bytes::{append_bytes, sub_bytes};
use crate::pager::{Page, PageId, PageType, PageView, Pager, PagerError};
use crate::table::{Corruption, TableError, TableResult};
use vstd::bytes::*;
use vstd::prelude::*;

verus! {

/// Where a value stands.
#[derive(Clone, Copy, Debug, PartialEq, Eq, Structural)]
pub enum ValueRef {
    /// In the tree itself.
    Inline,
    /// In one page, from an offset on.
    SinglePage { page_id: u32, offset: u16, length: u32 },
    /// In a chain of pages.
    OverflowChain { first_page_id: u32, total_length: u64, page_count: u32 },
}

impl ValueRef {
    /// The reference as bytes: a tag and the numbers, lowest byte first.
    pub open spec fn bytes(&self) -> Seq<u8> {
        match *self {
            ValueRef::Inline => seq![0u8],
            ValueRef::SinglePage { page_id, offset, length } => seq![1u8] + spec_u32_to_le_bytes(
                page_id,
            ) + spec_u16_to_le_bytes(offset) + spec_u32_to_le_bytes(length),
            ValueRef::OverflowChain { first_page_id, total_length, page_count } => seq![2u8]
                + spec_u32_to_le_bytes(first_page_id) + spec_u64_to_le_bytes(total_length)
                + spec_u32_to_le_bytes(page_count),
        }
    }

    /// The reference that bytes stand for.
    pub open spec fn parse(b: Seq<u8>) -> Option<ValueRef> {
        if b.len() == 1 && b[0] == 0 {
            Some(ValueRef::Inline)
        } else if b.len() == 11 && b[0] == 1 {
            Some(
                ValueRef::SinglePage {
                    page_id: spec_u32_from_le_bytes(b.subrange(1, 5)),
                    offset: spec_u16_from_le_bytes(b.subrange(5, 7)),
                    length: spec_u32_from_le_bytes(b.subrange(7, 11)),
                },
            )
        } else if b.len() == 17 && b[0] == 2 {
            Some(
                ValueRef::OverflowChain {
                    first_page_id: spec_u32_from_le_bytes(b.subrange(1, 5)),
                    total_length: spec_u64_from_le_bytes(b.subrange(5, 13)),
                    page_count: spec_u32_from_le_bytes(b.subrange(13, 17)),
                },
            )
        } else {
            None
        }
    }

    /// A reference is read back from its bytes.
    pub proof fn law_round_trip(self)
        ensures
            ValueRef::parse(self.bytes()) == Some(self),
    {
        lemma_auto_spec_u16_to_from_le_bytes();
        lemma_auto_spec_u32_to_from_le_bytes();
        lemma_auto_spec_u64_to_from_le_bytes();
        let b = self.bytes();
        match self {
            ValueRef::Inline => {},
            ValueRef::SinglePage { page_id, offset, length } => {
                assert(b.subrange(1, 5) =~= spec_u32_to_le_bytes(page_id));
                assert(b.subrange(5, 7) =~= spec_u16_to_le_bytes(offset));
                assert(b.subrange(7, 11) =~= spec_u32_to_le_bytes(length));
            },
            ValueRef::OverflowChain { first_page_id, total_length, page_count } => {
                assert(b.subrange(1, 5) =~= spec_u32_to_le_bytes(first_page_id));
                assert(b.subrange(5, 13) =~= spec_u64_to_le_bytes(total_length));
                assert(b.subrange(13, 17) =~= spec_u32_to_le_bytes(page_count));
            },
        }
    }

    /// The reference as bytes.
    pub fn encode(&self) -> (r: Vec<u8>)
        ensures
            r@ == self.bytes(),
    {
        let mut out: Vec<u8> = Vec::new();
        match *self {
            ValueRef::Inline => {
                out.push(0);
            },
            ValueRef::SinglePage { page_id, offset, length } => {
                out.push(1);
                append_bytes(&mut out, u32_to_le_bytes(page_id).as_slice());
                append_bytes(&mut out, u16_to_le_bytes(offset).as_slice());
                append_bytes(&mut out, u32_to_le_bytes(length).as_slice());
            },
            ValueRef::OverflowChain { first_page_id, total_length, page_count } => {
                out.push(2);
                append_bytes(&mut out, u32_to_le_bytes(first_page_id).as_slice());
                append_bytes(&mut out, u64_to_le_bytes(total_length).as_slice());
                append_bytes(&mut out, u32_to_le_bytes(page_count).as_slice());
            },
        }
        assert(out@ =~= self.bytes());
        out
    }

    /// The reference that bytes stand for, if they do.
    pub fn decode(b: &[u8]) -> (r: TableResult<ValueRef>)
        ensures
            match r {
                Ok(v) => ValueRef::parse(b@) == Some(v),
                Err(e) => ValueRef::parse(b@) is None && e == TableError::Corruption(
                    Corruption::InvalidValueRef,
                ),
            },
    {
        if b.len() == 1 && b[0] == 0 {
            Ok(ValueRef::Inline)
        } else if b.len() == 11 && b[0] == 1 {
            Ok(
                ValueRef::SinglePage {
                    page_id: u32_from_le_bytes(vstd::slice::slice_subrange(b, 1, 5)),
                    offset: u16_from_le_bytes(vstd::slice::slice_subrange(b, 5, 7)),
                    length: u32_from_le_bytes(vstd::slice::slice_subrange(b, 7, 11)),
                },
            )
        } else if b.len() == 17 && b[0] == 2 {
            Ok(
                ValueRef::OverflowChain {
                    first_page_id: u32_from_le_bytes(vstd::slice::slice_subrange(b, 1, 5)),
                    total_length: u64_from_le_bytes(vstd::slice::slice_subrange(b, 5, 13)),
                    page_count: u32_from_le_bytes(vstd::slice::slice_subrange(b, 13, 17)),
                },
            )
        } else {
            Err(TableError::Corruption(Corruption::InvalidValueRef))
        }
    }

    /// Whether the value stands outside the tree.
    pub fn requires_overflow(&self) -> (r: bool)
        ensures
            r == !(self is Inline),
    {
        match self {
            ValueRef::Inline => false,
            _ => true,
        }
    }
}

/// The size of what stands before the data in an overflow page: the next page and the length.
pub const OVERFLOW_HEADER_SIZE: usize = 12;

/// An overflow page: the next page, zero at the end, the length of the data, and the data.
pub open spec fn overflow_bytes(next: u64, data: Seq<u8>) -> Seq<u8> {
    spec_u64_to_le_bytes(next) + spec_u32_to_le_bytes(data.len() as u32) + data
}

/// The next page and the data that an overflow page holds.
pub open spec fn parse_overflow(b: Seq<u8>) -> Option<(u64, Seq<u8>)> {
    if b.len() < OVERFLOW_HEADER_SIZE {
        None
    } else {
        let len = spec_u32_from_le_bytes(b.subrange(8, 12)) as int;
        if OVERFLOW_HEADER_SIZE + len > b.len() {
            None
        } else {
            Some((spec_u64_from_le_bytes(b.take(8)), b.subrange(12, 12 + len)))
        }
    }
}

/// An overflow page is read back from its bytes.
pub proof fn lemma_overflow_round_trip(next: u64, data: Seq<u8>)
    requires
        data.len() <= u32::MAX,
    ensures
        parse_overflow(overflow_bytes(next, data)) == Some((next, data)),
        overflow_bytes(next, data).len() == OVERFLOW_HEADER_SIZE + data.len(),
{
    lemma_auto_spec_u32_to_from_le_bytes();
    lemma_auto_spec_u64_to_from_le_bytes();
    let b = overflow_bytes(next, data);
    assert(b.take(8) =~= spec_u64_to_le_bytes(next));
    assert(b.subrange(8, 12) =~= spec_u32_to_le_bytes(data.len() as u32));
    assert(b.subrange(12, 12 + data.len() as int) =~= data);
}

/// What the chain of overflow pages that starts at `id` holds, following at most `fuel` pages.
pub open spec fn chain_data(pages: Map<u64, PageView>, id: u64, fuel: nat) -> Result<
    Seq<u8>,
    TableError,
>
    decreases fuel,
{
    if id == 0 {
        Ok(Seq::empty())
    } else if fuel == 0 {
        Err(TableError::Corruption(Corruption::OverflowCycle(PageId(id))))
    } else if !pages.contains_key(id) {
        Err(TableError::Pager(PagerError::PageNotFound(PageId(id))))
    } else {
        match parse_overflow(pages[id].data) {
            None => Err(TableError::Corruption(Corruption::InvalidOverflowPage(PageId(id)))),
            Some((next, data)) => match chain_data(pages, next, (fuel - 1) as nat) {
                Ok(rest) => Ok(data + rest),
                Err(e) => Err(e),
            },
        }
    }
}

/// What the chain of overflow pages that starts at `first` holds.
pub fn read_overflow_chain(pager: &Pager, first: PageId) -> (r: TableResult<Vec<u8>>)
    requires
        pager.wf(),
    ensures
        match r {
            Ok(v) => chain_data(pager.pages(), first.0, pager.slots@.len()) == Ok::<
                Seq<u8>,
                TableError,
            >(v@),
            Err(e) => chain_data(pager.pages(), first.0, pager.slots@.len()) == Err::<
                Seq<u8>,
                TableError,
            >(e),
        },
{
    let ghost whole = chain_data(pager.pages(), first.0, pager.slots@.len());
    let mut out: Vec<u8> = Vec::new();
    let mut id: u64 = first.0;
    let mut fuel: usize = pager.slots.len();
    proof {
        if whole is Ok {
            assert(out@ + whole->Ok_0 =~= whole->Ok_0);
        }
    }
    while id != 0
        invariant
            pager.wf(),
            whole == chain_data(pager.pages(), first.0, pager.slots@.len()),
            match chain_data(pager.pages(), id, fuel as nat) {
                Ok(rest) => whole == Ok::<Seq<u8>, TableError>(out@ + rest),
                Err(e) => whole == Err::<Seq<u8>, TableError>(e),
            },
        decreases fuel,
    {
        if fuel == 0 {
            return Err(TableError::Corruption(Corruption::OverflowCycle(PageId(id))));
        }
        let page = match pager.read_page(PageId(id)) {
            Ok(p) => p,
            Err(e) => {
                return Err(TableError::Pager(e));
            },
        };
        let (next, data) = match read_overflow(page.data.as_slice()) {
            Some(t) => t,
            None => {
                return Err(TableError::Corruption(Corruption::InvalidOverflowPage(PageId(id))));
            },
        };
        let ghost before = out@;
        append_bytes(&mut out, data.as_slice());
        proof {
            let rest = chain_data(pager.pages(), next, (fuel - 1) as nat);
            if rest is Ok {
                assert(before + (data@ + rest->Ok_0) =~= out@ + rest->Ok_0);
            }
        }
        id = next;
        fuel -= 1;
    }
    assert(out@ + Seq::<u8>::empty() =~= out@);
    Ok(out)
}

fn read_overflow(b: &[u8]) -> (r: Option<(u64, Vec<u8>)>)
    ensures
        match r {
            Some((next, data)) => parse_overflow(b@) == Some((next, data@)),
            None => parse_overflow(b@) is None,
        },
{
    let total: usize = b.len();
    if total < OVERFLOW_HEADER_SIZE {
        return None;
    }
    let len: usize = u32_from_le_bytes(vstd::slice::slice_subrange(b, 8, 12)) as usize;
    if total - OVERFLOW_HEADER_SIZE < len {
        return None;
    }
    assert(b@.take(8) =~= b@.subrange(0, 8));
    Some((u64_from_le_bytes(vstd::slice::slice_subrange(b, 0, 8)), sub_bytes(b, 12, 12 + len)))
}

/// Writes data to an overflow page.
pub fn write_overflow_page(pager: &mut Pager, id: PageId, data: &[u8], next: u64) -> (r: Result<
    (),
    PagerError,
>)
    requires
        old(pager).wf(),
    ensures
        final(pager).wf(),
        final(pager).same_meta(old(pager)),
        r is Ok <==> old(pager).pages().contains_key(id.0) && OVERFLOW_HEADER_SIZE + data@.len()
            <= old(pager).capacity(),
        r is Ok ==> final(pager).pages() == old(pager).pages().insert(
            id.0,
            PageView { page_type: PageType::Overflow, data: overflow_bytes(next, data@) },
        ),
        r is Err ==> final(pager).pages() == old(pager).pages(),
{
    proof {
        lemma_auto_spec_u32_to_from_le_bytes();
        lemma_auto_spec_u64_to_from_le_bytes();
    }
    let mut page = Page::new(id, PageType::Overflow);
    append_bytes(&mut page.data, u64_to_le_bytes(next).as_slice());
    append_bytes(&mut page.data, u32_to_le_bytes(data.len() as u32).as_slice());
    append_bytes(&mut page.data, data);
    assert(page.data@ =~= overflow_bytes(next, data@));
    assert(page.contents() =~= (PageView {
        page_type: PageType::Overflow,
        data: overflow_bytes(next, data@),
    }));
    pager.write_page(page)
}

/// Makes `next` the page that follows an overflow page.
pub fn link_overflow_pages(pager: &mut Pager, prev: PageId, next: PageId) -> (r: TableResult<()>)
    requires
        old(pager).wf(),
    ensures
        final(pager).wf(),
        final(pager).same_meta(old(pager)),
        ({
            let readable = old(pager).pages().contains_key(prev.0) && parse_overflow(
                old(pager).pages()[prev.0].data,
            ) is Some;
            &&& r is Ok <==> readable && OVERFLOW_HEADER_SIZE + parse_overflow(
                old(pager).pages()[prev.0].data,
            )->Some_0.1.len() <= old(pager).capacity()
            &&& r is Ok ==> final(pager).pages() == old(pager).pages().insert(
                prev.0,
                PageView {
                    page_type: PageType::Overflow,
                    data: overflow_bytes(
                        next.0,
                        parse_overflow(old(pager).pages()[prev.0].data)->Some_0.1,
                    ),
                },
            )
        }),
        r is Err ==> final(pager).pages() == old(pager).pages(),
{
    let page = match pager.read_page(prev) {
        Ok(p) => p,
        Err(e) => {
            return Err(TableError::Pager(e));
        },
    };
    match read_overflow(page.data.as_slice()) {
        Some((_, data)) => match write_overflow_page(pager, prev, data.as_slice(), next.0) {
            Ok(()) => Ok(()),
            Err(e) => Err(TableError::Pager(e)),
        },
        None => Err(TableError::Corruption(Corruption::InvalidOverflowPage(prev))),
    }
}

/// The pages after the chain of overflow pages that starts at `id` was released.
pub open spec fn freed_chain(pages: Map<u64, PageView>, id: u64, fuel: nat) -> Result<
    Map<u64, PageView>,
    TableError,
>
    decreases fuel,
{
    if id == 0 {
        Ok(pages)
    } else if fuel == 0 {
        Err(TableError::Corruption(Corruption::OverflowCycle(PageId(id))))
    } else if !pages.contains_key(id) {
        Err(TableError::Pager(PagerError::PageNotFound(PageId(id))))
    } else {
        match parse_overflow(pages[id].data) {
            None => Err(TableError::Corruption(Corruption::InvalidOverflowPage(PageId(id)))),
            Some((next, data)) => freed_chain(pages.remove(id), next, (fuel - 1) as nat),
        }
    }
}

/// Releases the chain of overflow pages that starts at `first`.
pub fn free_overflow_chain(pager: &mut Pager, first: PageId) -> (r: TableResult<()>)
    requires
        old(pager).wf(),
    ensures
        final(pager).wf(),
        final(pager).same_meta(old(pager)),
        match r {
            Ok(()) => freed_chain(old(pager).pages(), first.0, old(pager).slots@.len()) == Ok::<
                Map<u64, PageView>,
                TableError,
            >(final(pager).pages()),
            Err(e) => freed_chain(old(pager).pages(), first.0, old(pager).slots@.len()) == Err::<
                Map<u64, PageView>,
                TableError,
            >(e),
        },
{
    let ghost whole = freed_chain(pager.pages(), first.0, pager.slots@.len());
    let mut id: u64 = first.0;
    let mut fuel: usize = pager.slots.len();
    while id != 0
        invariant
            pager.wf(),
            pager.same_meta(old(pager)),
            whole == freed_chain(old(pager).pages(), first.0, old(pager).slots@.len()),
            whole == freed_chain(pager.pages(), id, fuel as nat),
        decreases fuel,
    {
        if fuel == 0 {
            return Err(TableError::Corruption(Corruption::OverflowCycle(PageId(id))));
        }
        let page = match pager.read_page(PageId(id)) {
            Ok(p) => p,
            Err(e) => {
                return Err(TableError::Pager(e));
            },
        };
        let next: u64 = match read_overflow(page.data.as_slice()) {
            Some((next, _)) => next,
            None => {
                return Err(TableError::Corruption(Corruption::InvalidOverflowPage(PageId(id))));
            },
        };
        match pager.free_page(PageId(id)) {
            Ok(()) => {},
            Err(e) => {
                return Err(TableError::Pager(e));
            },
        }
        id = next;
        fuel -= 1;
    }
    Ok(())
}

/// The pages follow one another as overflow pages, and the last has none after it.
pub open spec fn is_chain(pages: Map<u64, PageView>, ids: Seq<u64>) -> bool {
    forall|i: int|
        0 <= i < ids.len() ==> #[trigger] ids[i] != 0 && pages.contains_key(ids[i])
            && parse_overflow(pages[ids[i]].data) is Some && parse_overflow(
            pages[ids[i]].data,
        )->Some_0.0 == (if i + 1 < ids.len() {
            ids[i + 1]
        } else {
            0
        })
}

/// Releasing a chain of overflow pages takes every page of it and no other, and leaves the others
/// as they are.
pub proof fn law_chain_is_released(pages: Map<u64, PageView>, ids: Seq<u64>, fuel: nat, p: u64)
    requires
        0 < ids.len() <= fuel,
        is_chain(pages, ids),
        ids.no_duplicates(),
    ensures
        freed_chain(pages, ids[0], fuel) is Ok,
        ({
            let after = freed_chain(pages, ids[0], fuel)->Ok_0;
            &&& after.contains_key(p) <==> pages.contains_key(p) && !ids.contains(p)
            &&& after.contains_key(p) ==> after[p] == pages[p]
        }),
    decreases ids.len(),
{
    let id = ids[0];
    let fewer = pages.remove(id);
    let rest = ids.drop_first();
    if ids.contains(p) && p != id {
        assert(rest[ids.index_of(p) - 1] == p);
    }
    if rest.contains(p) {
        assert(ids[rest.index_of(p) + 1] == p);
    }
    if rest.len() > 0 {
        assert(is_chain(fewer, rest)) by {
            assert forall|i: int| 0 <= i < rest.len() implies #[trigger] rest[i] != 0
                && fewer.contains_key(rest[i]) && parse_overflow(fewer[rest[i]].data) is Some
                && parse_overflow(fewer[rest[i]].data)->Some_0.0 == (if i + 1 < rest.len() {
                rest[i + 1]
            } else {
                0
            }) by {
                assert(rest[i] == ids[i + 1]);
                assert(ids[i + 1] != ids[0]);
            }
        }
        law_chain_is_released(fewer, rest, (fuel - 1) as nat, p);
        assert(rest[0] == ids[1]);
    } else {
        assert(freed_chain(fewer, 0, (fuel - 1) as nat) == Ok::<Map<u64, PageView>, TableError>(
            fewer,
        ));
        assert(ids[0] == id);
    }
}

/// A chain of overflow pages holds what its pages hold, one after the other.
pub proof fn law_chain_holds_what_its_pages_hold(
    pages: Map<u64, PageView>,
    ids: Seq<u64>,
    fuel: nat,
)
    requires
        0 < ids.len() <= fuel,
        is_chain(pages, ids),
    ensures
        chain_data(pages, ids[0], fuel) == Ok::<Seq<u8>, TableError>(
            ids.map_values(|id: u64| parse_overflow(pages[id].data)->Some_0.1).flatten(),
        ),
    decreases ids.len(),
{
    let part = |id: u64| parse_overflow(pages[id].data)->Some_0.1;
    let rest = ids.drop_first();
    assert(ids.map_values(part).drop_first() =~= rest.map_values(part));
    assert(ids.map_values(part)[0] == part(ids[0]));
    if rest.len() > 0 {
        assert(is_chain(pages, rest)) by {
            assert forall|i: int| 0 <= i < rest.len() implies #[trigger] rest[i] != 0
                && pages.contains_key(rest[i]) && parse_overflow(pages[rest[i]].data) is Some
                && parse_overflow(pages[rest[i]].data)->Some_0.0 == (if i + 1 < rest.len() {
                rest[i + 1]
            } else {
                0
            }) by {
                assert(rest[i] == ids[i + 1]);
            }
        }
        law_chain_holds_what_its_pages_hold(pages, rest, (fuel - 1) as nat);
        assert(rest[0] == ids[1]);
    } else {
        assert(rest.map_values(part) =~= Seq::empty());
        assert(chain_data(pages, 0, (fuel - 1) as nat) == Ok::<Seq<u8>, TableError>(Seq::empty()));
        assert(rest.map_values(part).flatten() =~= Seq::empty());
    }
    assert(ids.map_values(part).flatten() =~= part(ids[0]) + rest.map_values(part).flatten());
    assert(parse_overflow(pages[ids[0]].data) is Some);
}

} // verus!
