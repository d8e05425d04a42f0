//! What a vector index stores beside its nodes: a root page, and the map from keys to nodes.
use crate::bytemap::ByteMap;
use crate::bytes::{append_bytes, sub_bytes};
use crate::bloom::bits::zeros;
use crate::hnsw::node::{lemma_take_u32, read_u32, take_u32};
use crate::pager::{Page, PageId, PageType, PageView, Pager, PagerError};
use crate::table::{Corruption, TableError, TableResult};
use vstd::bytes::*;
use vstd::prelude::*;

verus! {

/// What a root page starts with.
pub const HNSW_MAGIC: u32 = 0x484E_5357;

/// The version of the layout of root pages.
pub const HNSW_VERSION: u32 = 1;

/// The length of a root page.
pub const ROOT_SIZE: usize = 120;

/// What a root page says.
#[derive(Clone, Copy, Debug, PartialEq, Eq, Structural)]
pub struct HnswMetadata {
    pub magic: u32,
    pub version: u32,
    pub dimensions: u32,
    pub metric: u32,
    pub max_connections: u32,
    pub max_connections_layer0: u32,
    pub ef_construction: u32,
    /// The factor for choosing layers, as the bits of a double-precision number.
    pub ml: u64,
    /// The node that searches start at, or zero.
    pub entry_point: u32,
    pub max_layer: u32,
    pub num_vectors: u64,
    /// The first page of the map, or zero.
    pub mapping_page_id: u64,
}

/// So many zero bytes.
pub open spec fn filler(n: int) -> Seq<u8> {
    Seq::new(n as nat, |i: int| 0u8)
}

/// A root page as bytes.
pub open spec fn root_page(m: HnswMetadata) -> Seq<u8> {
    spec_u32_to_le_bytes(m.magic) + spec_u32_to_le_bytes(m.version) + spec_u32_to_le_bytes(
        m.dimensions,
    ) + spec_u32_to_le_bytes(m.metric) + spec_u32_to_le_bytes(m.max_connections)
        + spec_u32_to_le_bytes(m.max_connections_layer0) + spec_u32_to_le_bytes(m.ef_construction)
        + filler(4) + spec_u64_to_le_bytes(m.ml) + spec_u32_to_le_bytes(m.entry_point)
        + spec_u32_to_le_bytes(m.max_layer) + spec_u64_to_le_bytes(m.num_vectors)
        + spec_u64_to_le_bytes(m.mapping_page_id) + filler(56)
}

/// What a root page says, if it is long enough.
pub open spec fn parse_root(b: Seq<u8>) -> Option<HnswMetadata> {
    if b.len() < ROOT_SIZE {
        None
    } else {
        Some(
            HnswMetadata {
                magic: spec_u32_from_le_bytes(b.subrange(0, 4)),
                version: spec_u32_from_le_bytes(b.subrange(4, 8)),
                dimensions: spec_u32_from_le_bytes(b.subrange(8, 12)),
                metric: spec_u32_from_le_bytes(b.subrange(12, 16)),
                max_connections: spec_u32_from_le_bytes(b.subrange(16, 20)),
                max_connections_layer0: spec_u32_from_le_bytes(b.subrange(20, 24)),
                ef_construction: spec_u32_from_le_bytes(b.subrange(24, 28)),
                ml: spec_u64_from_le_bytes(b.subrange(32, 40)),
                entry_point: spec_u32_from_le_bytes(b.subrange(40, 44)),
                max_layer: spec_u32_from_le_bytes(b.subrange(44, 48)),
                num_vectors: spec_u64_from_le_bytes(b.subrange(48, 56)),
                mapping_page_id: spec_u64_from_le_bytes(b.subrange(56, 64)),
            },
        )
    }
}

/// A root page is read back as it was written.
pub proof fn law_root_page_is_read_back(m: HnswMetadata)
    ensures
        parse_root(root_page(m)) == Some(m),
        root_page(m).len() == ROOT_SIZE,
{
    lemma_auto_spec_u32_to_from_le_bytes();
    lemma_auto_spec_u64_to_from_le_bytes();
    let b = root_page(m);
    assert(b.subrange(0, 4) =~= spec_u32_to_le_bytes(m.magic));
    assert(b.subrange(4, 8) =~= spec_u32_to_le_bytes(m.version));
    assert(b.subrange(8, 12) =~= spec_u32_to_le_bytes(m.dimensions));
    assert(b.subrange(12, 16) =~= spec_u32_to_le_bytes(m.metric));
    assert(b.subrange(16, 20) =~= spec_u32_to_le_bytes(m.max_connections));
    assert(b.subrange(20, 24) =~= spec_u32_to_le_bytes(m.max_connections_layer0));
    assert(b.subrange(24, 28) =~= spec_u32_to_le_bytes(m.ef_construction));
    assert(b.subrange(32, 40) =~= spec_u64_to_le_bytes(m.ml));
    assert(b.subrange(40, 44) =~= spec_u32_to_le_bytes(m.entry_point));
    assert(b.subrange(44, 48) =~= spec_u32_to_le_bytes(m.max_layer));
    assert(b.subrange(48, 56) =~= spec_u64_to_le_bytes(m.num_vectors));
    assert(b.subrange(56, 64) =~= spec_u64_to_le_bytes(m.mapping_page_id));
}

/// What a root page says, or what is wrong with it.
pub open spec fn root_at(pages: Map<u64, PageView>, id: PageId) -> TableResult<HnswMetadata> {
    if !pages.contains_key(id.0) {
        Err(TableError::Pager(PagerError::PageNotFound(id)))
    } else {
        match parse_root(pages[id.0].data) {
            Some(m) => Ok(m),
            None => Err(TableError::Corruption(Corruption::ShortVectorPage(id))),
        }
    }
}

/// Writes a root page.
pub fn write_metadata(pager: &mut Pager, id: PageId, m: &HnswMetadata) -> (r: TableResult<()>)
    requires
        old(pager).wf(),
        old(pager).pages().contains_key(id.0),
    ensures
        r is Ok,
        final(pager).wf(),
        final(pager).same_meta(old(pager)),
        final(pager).slots@.len() == old(pager).slots@.len(),
        final(pager).pages() == old(pager).pages().insert(
            id.0,
            PageView { page_type: PageType::VectorIndex, data: root_page(*m) },
        ),
        root_at(final(pager).pages(), id) == Ok::<HnswMetadata, TableError>(*m),
{
    let mut page = Page::new(id, PageType::VectorIndex);
    append_bytes(&mut page.data, u32_to_le_bytes(m.magic).as_slice());
    append_bytes(&mut page.data, u32_to_le_bytes(m.version).as_slice());
    append_bytes(&mut page.data, u32_to_le_bytes(m.dimensions).as_slice());
    append_bytes(&mut page.data, u32_to_le_bytes(m.metric).as_slice());
    append_bytes(&mut page.data, u32_to_le_bytes(m.max_connections).as_slice());
    append_bytes(&mut page.data, u32_to_le_bytes(m.max_connections_layer0).as_slice());
    append_bytes(&mut page.data, u32_to_le_bytes(m.ef_construction).as_slice());
    append_bytes(&mut page.data, zeros(4).as_slice());
    append_bytes(&mut page.data, u64_to_le_bytes(m.ml).as_slice());
    append_bytes(&mut page.data, u32_to_le_bytes(m.entry_point).as_slice());
    append_bytes(&mut page.data, u32_to_le_bytes(m.max_layer).as_slice());
    append_bytes(&mut page.data, u64_to_le_bytes(m.num_vectors).as_slice());
    append_bytes(&mut page.data, u64_to_le_bytes(m.mapping_page_id).as_slice());
    append_bytes(&mut page.data, zeros(56).as_slice());
    proof {
        assert(page.data@ =~= root_page(*m));
        law_root_page_is_read_back(*m);
    }
    match pager.write_page(page) {
        Ok(()) => Ok(()),
        Err(e) => Err(TableError::Pager(e)),
    }
}

/// Reads a root page.
pub fn read_metadata(pager: &Pager, id: PageId) -> (r: TableResult<HnswMetadata>)
    requires
        pager.wf(),
    ensures
        r == root_at(pager.pages(), id),
{
    let page = match pager.read_page(id) {
        Ok(p) => p,
        Err(e) => return Err(TableError::Pager(e)),
    };
    let b = page.data.as_slice();
    if b.len() < ROOT_SIZE {
        return Err(TableError::Corruption(Corruption::ShortVectorPage(id)));
    }
    Ok(
        HnswMetadata {
            magic: u32_from_le_bytes(vstd::slice::slice_subrange(b, 0, 4)),
            version: u32_from_le_bytes(vstd::slice::slice_subrange(b, 4, 8)),
            dimensions: u32_from_le_bytes(vstd::slice::slice_subrange(b, 8, 12)),
            metric: u32_from_le_bytes(vstd::slice::slice_subrange(b, 12, 16)),
            max_connections: u32_from_le_bytes(vstd::slice::slice_subrange(b, 16, 20)),
            max_connections_layer0: u32_from_le_bytes(vstd::slice::slice_subrange(b, 20, 24)),
            ef_construction: u32_from_le_bytes(vstd::slice::slice_subrange(b, 24, 28)),
            ml: u64_from_le_bytes(vstd::slice::slice_subrange(b, 32, 40)),
            entry_point: u32_from_le_bytes(vstd::slice::slice_subrange(b, 40, 44)),
            max_layer: u32_from_le_bytes(vstd::slice::slice_subrange(b, 44, 48)),
            num_vectors: u64_from_le_bytes(vstd::slice::slice_subrange(b, 48, 56)),
            mapping_page_id: u64_from_le_bytes(vstd::slice::slice_subrange(b, 56, 64)),
        },
    )
}

/// A key and its node.
pub type Pair = (Seq<u8>, u32);

/// Keys and nodes as bytes.
pub open spec fn pair_bytes(ps: Seq<Pair>) -> Seq<u8>
    decreases ps.len(),
{
    if ps.len() == 0 {
        Seq::empty()
    } else {
        spec_u32_to_le_bytes(ps[0].0.len() as u32) + ps[0].0 + spec_u32_to_le_bytes(ps[0].1)
            + pair_bytes(ps.drop_first())
    }
}

/// The map as bytes.
pub open spec fn map_bytes(ps: Seq<Pair>) -> Seq<u8> {
    spec_u32_to_le_bytes(ps.len() as u32) + pair_bytes(ps)
}

/// So many keys and nodes at the front of a byte string.
pub open spec fn take_pairs(b: Seq<u8>, n: nat) -> Option<Seq<Pair>>
    decreases n,
{
    if n == 0 {
        Some(Seq::empty())
    } else {
        match take_u32(b) {
            None => None,
            Some((len, rest)) => if rest.len() < len + 4 {
                None
            } else {
                let key = rest.take(len as int);
                let (id, end) = take_u32(rest.skip(len as int))->Some_0;
                match take_pairs(end, (n - 1) as nat) {
                    None => None,
                    Some(ps) => Some(seq![(key, id)] + ps),
                }
            },
        }
    }
}

/// The keys and nodes that bytes stand for.
pub open spec fn parse_map(b: Seq<u8>) -> Option<Seq<Pair>> {
    match take_u32(b) {
        None => None,
        Some((n, rest)) => take_pairs(rest, n as nat),
    }
}

/// The nodes of keys; a later one counts.
pub open spec fn as_map(ps: Seq<Pair>) -> Map<Seq<u8>, u32>
    decreases ps.len(),
{
    if ps.len() == 0 {
        Map::empty()
    } else {
        as_map(ps.drop_last()).insert(ps.last().0, ps.last().1)
    }
}

/// The keys and nodes of a map, in order.
pub open spec fn pairs_of(m: ByteMap<u32>) -> Seq<Pair> {
    Seq::new(m.entries@.len(), |i: int| (m.entries@[i].0@, m.entries@[i].1))
}

proof fn lemma_take_pairs(ps: Seq<Pair>, rest: Seq<u8>)
    requires
        forall|i: int| 0 <= i < ps.len() ==> (#[trigger] ps[i]).0.len() <= u32::MAX,
    ensures
        take_pairs(pair_bytes(ps) + rest, ps.len()) == Some(ps),
    decreases ps.len(),
{
    if ps.len() == 0 {
        assert(ps =~= Seq::empty());
    } else {
        let others = ps.drop_first();
        assert forall|i: int| 0 <= i < others.len() implies (#[trigger] others[i]).0.len()
            <= u32::MAX by {
            assert(others[i] == ps[i + 1]);
        }
        lemma_take_pairs(others, rest);
        let (key, id) = ps[0];
        let t2 = pair_bytes(others) + rest;
        let t1 = spec_u32_to_le_bytes(id) + t2;
        let all = pair_bytes(ps) + rest;
        assert(all =~= spec_u32_to_le_bytes(key.len() as u32) + (key + t1));
        lemma_take_u32(key.len() as u32, key + t1);
        lemma_take_u32(id, t2);
        assert((key + t1).take(key.len() as int) =~= key);
        assert((key + t1).skip(key.len() as int) =~= t1);
        assert(seq![ps[0]] + others =~= ps);
    }
}

/// A map is read back from its bytes.
pub proof fn law_map_is_read_back(ps: Seq<Pair>)
    requires
        ps.len() <= u32::MAX,
        forall|i: int| 0 <= i < ps.len() ==> (#[trigger] ps[i]).0.len() <= u32::MAX,
    ensures
        parse_map(map_bytes(ps)) == Some(ps),
{
    lemma_take_u32(ps.len() as u32, pair_bytes(ps));
    assert(pair_bytes(ps) + Seq::<u8>::empty() =~= pair_bytes(ps));
    lemma_take_pairs(ps, Seq::empty());
}

/// The pairs of a map make up the map.
pub proof fn lemma_pairs_make_map(m: ByteMap<u32>)
    requires
        m.wf(),
    ensures
        as_map(pairs_of(m)) == m@,
{
    lemma_pairs_make_part(m, m.entries@.len() as int);
    assert(pairs_of(m).take(m.entries@.len() as int) =~= pairs_of(m));
    assert forall|k: Seq<u8>| m@.contains_key(k) implies as_map(pairs_of(m)).contains_key(k) by {
        let i = m.lemma_key(k);
        assert(pairs_of(m)[i].0 == k);
    }
    assert(as_map(pairs_of(m)) =~= m@);
}

proof fn lemma_pairs_make_part(m: ByteMap<u32>, n: int)
    requires
        m.wf(),
        0 <= n <= m.entries@.len(),
    ensures
        forall|k: Seq<u8>| #[trigger]
            as_map(pairs_of(m).take(n)).contains_key(k) ==> m@.contains_key(k) && m@[k] == as_map(
                pairs_of(m).take(n),
            )[k],
        forall|i: int|
            0 <= i < n ==> as_map(pairs_of(m).take(n)).contains_key(
                (#[trigger] pairs_of(m)[i]).0,
            ),
    decreases n,
{
    let ps = pairs_of(m);
    if n > 0 {
        lemma_pairs_make_part(m, n - 1);
        assert(ps.take(n).drop_last() =~= ps.take(n - 1));
        assert(ps.take(n).last() == ps[n - 1]);
        m.lemma_entry(n - 1);
        assert forall|k: Seq<u8>| #[trigger]
            as_map(ps.take(n)).contains_key(k) implies m@.contains_key(k) && m@[k] == as_map(
            ps.take(n),
        )[k] by {
            if k != ps[n - 1].0 {
                assert(as_map(ps.take(n - 1)).contains_key(k));
            }
        }
    } else {
        assert(ps.take(0) =~= Seq::empty());
    }
}

/// A page of the map: a part of it, and the number of the next page.
pub open spec fn map_page(part: Seq<u8>, next: u64) -> PageView {
    PageView { page_type: PageType::VectorIndex, data: part + spec_u64_to_le_bytes(next) }
}

/// What a chain of pages holds, or what is wrong with it.
pub open spec fn map_data(pages: Map<u64, PageView>, id: u64, fuel: nat) -> TableResult<Seq<u8>>
    decreases fuel,
{
    if fuel == 0 {
        Err(TableError::Corruption(Corruption::OverflowCycle(PageId(id))))
    } else if !pages.contains_key(id) {
        Err(TableError::Pager(PagerError::PageNotFound(PageId(id))))
    } else if pages[id].data.len() < 8 {
        Err(TableError::Corruption(Corruption::ShortVectorPage(PageId(id))))
    } else {
        let data = pages[id].data;
        let end = data.len() - 8;
        let next = spec_u64_from_le_bytes(data.skip(end));
        if next == 0 {
            Ok(data.take(end))
        } else {
            match map_data(pages, next, (fuel - 1) as nat) {
                Ok(rest) => Ok(data.take(end) + rest),
                Err(e) => Err(e),
            }
        }
    }
}

/// The map that starts at a page, or what is wrong with it. An empty map has no pages.
pub open spec fn map_at(pages: Map<u64, PageView>, id: u64, fuel: nat) -> TableResult<
    Map<Seq<u8>, u32>,
> {
    if id == 0 {
        Ok(Map::empty())
    } else {
        match map_data(pages, id, fuel) {
            Err(e) => Err(e),
            Ok(b) => match parse_map(b) {
                Some(ps) => Ok(as_map(ps)),
                None => Err(TableError::Corruption(Corruption::TruncatedVectorMap)),
            },
        }
    }
}

/// The part of the data that goes to a page.
pub open spec fn part_at(data: Seq<u8>, at: int, payload: int) -> Seq<u8> {
    data.subrange(
        at,
        if at + payload < data.len() {
            at + payload
        } else {
            data.len() as int
        },
    )
}

/// The pages from `start` on hold the data from the cuts on.
spec fn holds_parts(
    pages: Map<u64, PageView>,
    start: int,
    cuts: Seq<int>,
    data: Seq<u8>,
    payload: int,
    n: int,
) -> bool {
    forall|j: int|
        0 <= j < n ==> 0 <= #[trigger] cuts[j] < data.len() && start + j <= u64::MAX
            && pages.contains_key((start + j) as u64) && pages[(start + j) as u64] == map_page(
            part_at(data, cuts[j], payload),
            if cuts[j] + payload < data.len() {
                (start + j + 1) as u64
            } else {
                0
            },
        )
}

proof fn lemma_parts(
    pages: Map<u64, PageView>,
    start: int,
    cuts: Seq<int>,
    data: Seq<u8>,
    payload: int,
    n: int,
    j: int,
    fuel: nat,
)
    requires
        holds_parts(pages, start, cuts, data, payload, n),
        0 <= j < n,
        start > 0,
        start + n <= u64::MAX,
        n - j <= fuel,
        payload > 0,
        forall|k: int| 0 <= k < n - 1 ==> #[trigger] cuts[k + 1] == cuts[k] + payload,
        cuts[n - 1] + payload >= data.len(),
    ensures
        map_data(pages, (start + j) as u64, fuel) == Ok::<Seq<u8>, TableError>(data.skip(cuts[j])),
    decreases n - j,
{
    lemma_auto_spec_u64_to_from_le_bytes();
    let at = cuts[j];
    let part = part_at(data, at, payload);
    let page = pages[(start + j) as u64].data;
    let next = if at + payload < data.len() {
        (start + j + 1) as u64
    } else {
        0
    };
    assert(page == part + spec_u64_to_le_bytes(next));
    assert(page.take(page.len() - 8) =~= part);
    assert(page.skip(page.len() - 8) =~= spec_u64_to_le_bytes(next));
    if at + payload < data.len() {
        assert(j < n - 1);
        assert(cuts[j + 1] == at + payload);
        lemma_parts(pages, start, cuts, data, payload, n, j + 1, (fuel - 1) as nat);
        assert(part + data.skip(at + payload) =~= data.skip(at));
    } else {
        assert(part =~= data.skip(at));
    }
}

/// Writes data to a chain of new pages.
fn write_data(pager: &mut Pager, data: &Vec<u8>) -> (r: PageId)
    requires
        old(pager).wf(),
        data@.len() > 0,
    ensures
        final(pager).wf(),
        final(pager).same_meta(old(pager)),
        forall|p: u64| #[trigger]
            old(pager).pages().contains_key(p) ==> final(pager).pages().contains_key(p) && final(pager).pages()[p] == old(pager).pages()[p],
        r.0 != 0,
        map_data(final(pager).pages(), r.0, final(pager).slots@.len()) == Ok::<
            Seq<u8>,
            TableError,
        >(data@),
        // The pages are new ones: what the old ones hold does not matter.
        forall|p: u64, v: PageView| #![trigger final(pager).pages().insert(p, v)]
            old(pager).pages().contains_key(p) ==> map_data(
                final(pager).pages().insert(p, v),
                r.0,
                final(pager).slots@.len(),
            ) == Ok::<Seq<u8>, TableError>(data@),
{
    let ghost pages0 = pager.pages();
    let ghost start = pager.slots@.len() as int;
    let payload: usize = pager.page_size().data_size() - 8;
    let first: u64 = pager.slots.len() as u64;
    let ghost mut cuts: Seq<int> = Seq::empty();
    let ghost mut n: int = 0;
    let mut at: usize = 0;
    while at < data.len()
        invariant
            pager.wf(),
            pager.same_meta(old(pager)),
            pages0 == old(pager).pages(),
            payload + 8 == pager.capacity(),
            payload > 0,
            start > 0,
            at <= data@.len(),
            0 <= n,
            cuts.len() == n,
            n > 0 ==> cuts[0] == 0,
            pager.slots@.len() == start + n,
            at < data@.len() ==> at == (if n == 0 {
                0
            } else {
                cuts[n - 1] + payload
            }),
            at == data@.len() ==> n > 0 && cuts[n - 1] + payload >= data@.len(),
            data@.len() > 0,
            forall|k: int| 0 <= k < n - 1 ==> #[trigger] cuts[k + 1] == cuts[k] + payload,
            holds_parts(pager.pages(), start, cuts, data@, payload as int, n),
            forall|p: u64| #[trigger]
                pages0.contains_key(p) ==> pager.pages().contains_key(p) && pager.pages()[p]
                    == pages0[p],
        decreases data@.len() - at,
    {
        let ghost pages1 = pager.pages();
        let ghost cuts0 = cuts;
        let id = pager.allocate_page(PageType::VectorIndex);
        let left: usize = data.len() - at;
        let end: usize = if payload < left {
            at + payload
        } else {
            data.len()
        };
        let next: u64 = if payload < left {
            pager.slots.len() as u64
        } else {
            0
        };
        let mut page = Page::new(id, PageType::VectorIndex);
        let part = sub_bytes(data.as_slice(), at, end);
        append_bytes(&mut page.data, part.as_slice());
        append_bytes(&mut page.data, u64_to_le_bytes(next).as_slice());
        proof {
            lemma_auto_spec_u64_to_from_le_bytes();
            assert(part@ =~= part_at(data@, at as int, payload as int));
            assert(page.data@ =~= part@ + spec_u64_to_le_bytes(next));
        }
        let written = pager.write_page(page);
        proof {
            assert(written is Ok);
            cuts = cuts.push(at as int);
            n = n + 1;
            assert forall|j: int| 0 <= j < n implies 0 <= #[trigger] cuts[j] < data@.len() && start
                + j <= u64::MAX && pager.pages().contains_key((start + j) as u64)
                && pager.pages()[(start + j) as u64] == map_page(
                part_at(data@, cuts[j], payload as int),
                if cuts[j] + payload < data@.len() {
                    (start + j + 1) as u64
                } else {
                    0
                },
            ) by {
                if j < n - 1 {
                    assert(cuts0[j] == cuts[j]);
                    assert(pages1.contains_key((start + j) as u64));
                }
            }
            assert forall|k: int| 0 <= k < n - 1 implies #[trigger] cuts[k + 1] == cuts[k]
                + payload by {
                if k + 1 < n - 1 {
                    assert(cuts0[k + 1] == cuts0[k] + payload);
                }
            }
        }
        at = end;
    }
    let count: usize = pager.slots.len();
    proof {
        assert(count == start + n);
        lemma_parts(
            pager.pages(),
            start,
            cuts,
            data@,
            payload as int,
            n,
            0,
            pager.slots@.len(),
        );
        assert(data@.skip(0) =~= data@);
        assert forall|p: u64, v: PageView| #![trigger pager.pages().insert(p, v)]
            pages0.contains_key(p) implies map_data(
            pager.pages().insert(p, v),
            first,
            pager.slots@.len(),
        ) == Ok::<Seq<u8>, TableError>(data@) by {
            let other = pager.pages().insert(p, v);
            assert(p < start);
            assert forall|j: int| 0 <= j < n implies 0 <= #[trigger] cuts[j] < data@.len() && start
                + j <= u64::MAX && other.contains_key((start + j) as u64) && other[(start
                + j) as u64] == map_page(
                part_at(data@, cuts[j], payload as int),
                if cuts[j] + payload < data@.len() {
                    (start + j + 1) as u64
                } else {
                    0
                },
            ) by {
                assert(pager.pages().contains_key((start + j) as u64));
            }
            lemma_parts(other, start, cuts, data@, payload as int, n, 0, pager.slots@.len());
        }
    }
    PageId(first)
}

/// Reads the data of a chain of pages.
fn read_data(pager: &Pager, first: PageId) -> (r: TableResult<Vec<u8>>)
    requires
        pager.wf(),
    ensures
        match r {
            Ok(v) => map_data(pager.pages(), first.0, pager.slots@.len()) == Ok::<
                Seq<u8>,
                TableError,
            >(v@),
            Err(e) => map_data(pager.pages(), first.0, pager.slots@.len()) == Err::<
                Seq<u8>,
                TableError,
            >(e),
        },
{
    let ghost pages = pager.pages();
    let ghost whole = map_data(pages, first.0, pager.slots@.len());
    let mut out: Vec<u8> = Vec::new();
    let mut id: u64 = first.0;
    let mut fuel: usize = pager.slots.len();
    let mut more: bool = true;
    proof {
        if whole is Ok {
            assert(out@ + whole->Ok_0 =~= whole->Ok_0);
        }
    }
    while more
        invariant
            pager.wf(),
            pages == pager.pages(),
            whole == map_data(pages, first.0, pager.slots@.len()),
            more ==> match map_data(pages, id, fuel as nat) {
                Ok(rest) => whole == Ok::<Seq<u8>, TableError>(out@ + rest),
                Err(e) => whole == Err::<Seq<u8>, TableError>(e),
            },
            !more ==> whole == Ok::<Seq<u8>, TableError>(out@),
        decreases (if more {
            fuel as int + 1
        } else {
            0
        }),
    {
        if fuel == 0 {
            return Err(TableError::Corruption(Corruption::OverflowCycle(PageId(id))));
        }
        let page = match pager.read_page(PageId(id)) {
            Ok(p) => p,
            Err(e) => return Err(TableError::Pager(e)),
        };
        let len: usize = page.data.len();
        if len < 8 {
            return Err(TableError::Corruption(Corruption::ShortVectorPage(PageId(id))));
        }
        let data = page.data.as_slice();
        let next: u64 = u64_from_le_bytes(vstd::slice::slice_subrange(data, len - 8, len));
        let here = sub_bytes(data, 0, len - 8);
        let ghost before = out@;
        append_bytes(&mut out, here.as_slice());
        proof {
            assert(page.data@.skip(len - 8) =~= page.data@.subrange(len - 8, len as int));
            assert(here@ =~= page.data@.take(len - 8));
            let rest = map_data(pages, next, (fuel - 1) as nat);
            if next != 0 && rest is Ok {
                assert(before + (here@ + rest->Ok_0) =~= out@ + rest->Ok_0);
            }
        }
        if next == 0 {
            more = false;
        } else {
            id = next;
            fuel -= 1;
        }
    }
    Ok(out)
}

/// Writes the map to new pages, and returns the first one. An empty map has none.
pub fn serialize_mapping(pager: &mut Pager, map: &ByteMap<u32>) -> (r: PageId)
    requires
        old(pager).wf(),
        map.wf(),
    ensures
        final(pager).wf(),
        final(pager).same_meta(old(pager)),
        forall|p: u64| #[trigger]
            old(pager).pages().contains_key(p) ==> final(pager).pages().contains_key(p) && final(pager).pages()[p] == old(pager).pages()[p],
        r.0 == 0 <==> map.entries@.len() == 0,
        r.0 == 0 ==> final(pager).pages() == old(pager).pages(),
        r.0 != 0 ==> map_data(final(pager).pages(), r.0, final(pager).slots@.len()) == Ok::<
            Seq<u8>,
            TableError,
        >(map_bytes(pairs_of(*map))),
        r.0 != 0 ==> forall|p: u64, v: PageView| #![trigger final(pager).pages().insert(p, v)]
            old(pager).pages().contains_key(p) ==> map_data(
                final(pager).pages().insert(p, v),
                r.0,
                final(pager).slots@.len(),
            ) == Ok::<Seq<u8>, TableError>(map_bytes(pairs_of(*map))),
{
    let n: usize = map.entries.len();
    if n == 0 {
        return PageId(0);
    }
    let ghost ps = pairs_of(*map);
    let mut data: Vec<u8> = Vec::new();
    append_bytes(&mut data, u32_to_le_bytes(n as u32).as_slice());
    let mut i: usize = 0;
    proof {
        assert(ps.skip(0) =~= ps);
        assert(data@ + pair_bytes(ps) =~= map_bytes(ps));
    }
    while i < n
        invariant
            i <= n,
            n == map.entries@.len(),
            ps == pairs_of(*map),
            data@.len() >= 4,
            data@ + pair_bytes(ps.skip(i as int)) == map_bytes(ps),
        decreases n - i,
    {
        let ghost before = data@;
        let key = map.entries[i].0.as_slice();
        append_bytes(&mut data, u32_to_le_bytes(key.len() as u32).as_slice());
        append_bytes(&mut data, key);
        append_bytes(&mut data, u32_to_le_bytes(map.entries[i].1).as_slice());
        proof {
            let rest = ps.skip(i as int);
            assert(rest.drop_first() =~= ps.skip(i + 1));
            assert(rest[0] == (map.entries@[i as int].0@, map.entries@[i as int].1));
            assert(data@ + pair_bytes(ps.skip(i + 1)) =~= before + pair_bytes(rest));
        }
        i += 1;
    }
    proof {
        assert(ps.skip(n as int) =~= Seq::empty());
        assert(data@ + pair_bytes(Seq::empty()) =~= data@);
    }
    write_data(pager, &data)
}

/// Reads the keys and nodes from bytes.
fn read_map(b: &[u8]) -> (r: Option<ByteMap<u32>>)
    ensures
        match r {
            Some(m) => m.wf() && parse_map(b@) is Some && m@ == as_map(parse_map(b@)->Some_0),
            None => parse_map(b@) is None,
        },
{
    assert(b@.skip(0) =~= b@);
    let (n, start) = match read_u32(b, 0) {
        Some(x) => x,
        None => return None,
    };
    let ghost whole = take_pairs(b@.skip(start as int), n as nat);
    let ghost mut ps: Seq<Pair> = Seq::empty();
    let mut map: ByteMap<u32> = ByteMap::new();
    let mut at: usize = start;
    let mut i: u32 = 0;
    proof {
        assert(as_map(ps) =~= map@);
        if whole is Some {
            assert(ps + whole->Some_0 =~= whole->Some_0);
        }
    }
    while i < n
        invariant
            i <= n,
            at <= b@.len(),
            map.wf(),
            map@ == as_map(ps),
            whole == parse_map(b@),
            match take_pairs(b@.skip(at as int), (n - i) as nat) {
                Some(rest) => whole == Some(ps + rest),
                None => whole is None,
            },
        decreases n - i,
    {
        let (len, from) = match read_u32(b, at) {
            Some(x) => x,
            None => return None,
        };
        if len as usize > b.len() - from || b.len() - from - (len as usize) < 4 {
            return None;
        }
        let key = sub_bytes(b, from, from + len as usize);
        let (id, next) = match read_u32(b, from + len as usize) {
            Some(x) => x,
            None => return None,
        };
        proof {
            let rest = b@.skip(from as int);
            assert(rest.take(len as int) =~= key@);
            assert(rest.skip(len as int) =~= b@.skip(from + len));
            let more = take_pairs(b@.skip(next as int), (n - i - 1) as nat);
            if more is Some {
                assert(ps + (seq![(key@, id)] + more->Some_0) =~= ps.push((key@, id))
                    + more->Some_0);
            }
            let before = ps;
            ps = ps.push((key@, id));
            assert(ps.drop_last() =~= before);
        }
        map.insert(key, id);
        at = next;
        i += 1;
    }
    proof {
        assert(ps + Seq::<Pair>::empty() =~= ps);
    }
    Some(map)
}

/// Reads the map that starts at a page.
pub fn deserialize_mapping(pager: &Pager, first: PageId) -> (r: TableResult<ByteMap<u32>>)
    requires
        pager.wf(),
    ensures
        match r {
            Ok(m) => m.wf() && map_at(pager.pages(), first.0, pager.slots@.len()) == Ok::<
                Map<Seq<u8>, u32>,
                TableError,
            >(m@),
            Err(e) => map_at(pager.pages(), first.0, pager.slots@.len()) == Err::<
                Map<Seq<u8>, u32>,
                TableError,
            >(e),
        },
{
    if first.0 == 0 {
        return Ok(ByteMap::new());
    }
    let data = match read_data(pager, first) {
        Ok(d) => d,
        Err(e) => return Err(e),
    };
    match read_map(data.as_slice()) {
        Some(m) => Ok(m),
        None => Err(TableError::Corruption(Corruption::TruncatedVectorMap)),
    }
}

/// Where the pages hold the bytes of a map, the map is read back from them.
pub proof fn law_map_pages_are_read_back(
    pages: Map<u64, PageView>,
    id: u64,
    fuel: nat,
    m: ByteMap<u32>,
)
    requires
        m.wf(),
        m.entries@.len() <= u32::MAX,
        forall|i: int| 0 <= i < m.entries@.len() ==> (#[trigger] m.entries@[i]).0@.len() <= u32::MAX,
        id == 0 <==> m.entries@.len() == 0,
        id != 0 ==> map_data(pages, id, fuel) == Ok::<Seq<u8>, TableError>(
            map_bytes(pairs_of(m)),
        ),
    ensures
        map_at(pages, id, fuel) == Ok::<Map<Seq<u8>, u32>, TableError>(m@),
{
    let ps = pairs_of(m);
    lemma_pairs_make_map(m);
    if id != 0 {
        assert forall|i: int| 0 <= i < ps.len() implies (#[trigger] ps[i]).0.len() <= u32::MAX by {
            assert(m.entries@[i].0@ == ps[i].0);
        }
        law_map_is_read_back(ps);
    } else {
        assert(ps =~= Seq::empty());
    }
}

} // verus!
