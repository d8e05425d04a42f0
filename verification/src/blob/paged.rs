//! Blobs in pages, with versions.
use crate::blob::pages::{
    blank, blob_chunks, blob_data, blob_freed, blob_pages, free_blob_pages, is_page_chain, is_part,
    law_padded_starts_with_value, law_release_keeps_others, law_release_takes_every_page,
    lemma_fewer_pages, lemma_freed, lemma_known_pages, lemma_same_pages, padded, read_blob_data,
    write_blob_data, BLOB_HEADER_SIZE,
};
use crate::bloom::bits::zeros;
use crate::bytemap::ByteMap;
use crate::bytes::copy_bytes;
use crate::mvcc::{
    chain_of, snapshot_read, version_total, with_commit, with_put, with_vacuum, Chains,
};
use crate::pager::{Page, PageId, PageType, PageView, Pager};
use crate::snap::Snapshot;
use crate::table::{TableCapabilities, TableEngineKind, TableError, TableResult, TableStatistics};
use crate::txn::{
    dropped, latest_committed, lemma_dropped, saturated, vacuumed, visible_at, Version,
    VersionChain,
};
use crate::types::{value_view, LogSequenceNumber, TableId, TransactionId, ValueBuf};
use crate::wire::{page_record, page_record_of, read_page_record, write_page_record};
use vstd::prelude::*;

verus! {

/// Blobs in pages.
pub struct PagedBlob {
    pub id: TableId,
    pub name: String,
    pub root_page_id: PageId,
    /// The versions of each key; each is a record of a first page, a size and a number of pages.
    pub index: ByteMap<VersionChain>,
}

/// The bytes of full pages without what follows a blob of the given size.
pub open spec fn cut_to(data: Seq<u8>, size: u64) -> Seq<u8> {
    if size < data.len() {
        data.take(size as int)
    } else {
        data
    }
}

/// The blob of a record, or why it cannot be read. A record without pages marks a deletion.
pub open spec fn stored_blob(record: Option<Seq<u8>>, pages: Map<u64, PageView>, fuel: nat) -> TableResult<
    Option<Seq<u8>>,
> {
    match record {
        None => Ok(None),
        Some(b) => match page_record_of(b) {
            None => Err(TableError::Serialization),
            Some((first, size, _)) => if first == 0 {
                Ok(None)
            } else {
                match blob_data(pages, first, fuel) {
                    Ok(data) => Ok(Some(cut_to(data, size))),
                    Err(e) => Err(e),
                }
            },
        },
    }
}

/// The outcome of reading a record, once the blob that it points at was read.
pub fn found_blob(record: Option<(u64, u64, u64)>, pager: &Pager) -> (r: TableResult<
    Option<ValueBuf>,
>)
    requires
        pager.wf(),
    ensures
        match record {
            None => r == Err::<Option<ValueBuf>, TableError>(TableError::Serialization),
            Some((first, size, _)) => {
                let data = blob_data(pager.pages(), first, pager.slots@.len());
                if first == 0 {
                    r == Ok::<Option<ValueBuf>, TableError>(None)
                } else {
                    &&& r is Ok <==> data is Ok
                    &&& r matches Ok(v) ==> value_view(v) == Some(cut_to(data->Ok_0, size))
                    &&& r matches Err(e) ==> data->Err_0 == e
                }
            },
        },
{
    match record {
        None => Err(TableError::Serialization),
        Some((first, size, _)) => if first == 0 {
            Ok(None)
        } else {
            match read_blob_data(pager, PageId(first)) {
                Ok(data) => {
                    let mut data = data;
                    if size < data.len() as u64 {
                        data.truncate(size as usize);
                    }
                    Ok(Some(ValueBuf(data)))
                },
                Err(e) => Err(e),
            }
        },
    }
}

fn read_stored(record: Option<&[u8]>, pager: &Pager) -> (r: TableResult<Option<ValueBuf>>)
    requires
        pager.wf(),
    ensures
        match record {
            None => r == Ok::<Option<ValueBuf>, TableError>(None),
            Some(b) => {
                let found = stored_blob(Some(b@), pager.pages(), pager.slots@.len());
                &&& r is Ok <==> found is Ok
                &&& r matches Ok(v) ==> value_view(v) == found->Ok_0
                &&& r matches Err(e) ==> found->Err_0 == e
            },
        },
{
    match record {
        Some(b) => found_blob(read_page_record(b), pager),
        None => Ok(None),
    }
}

/// The first pages that the records of the versions point at.
pub open spec fn first_pages(vs: Seq<Version>) -> Seq<u64>
    decreases vs.len(),
{
    if vs.len() == 0 {
        Seq::empty()
    } else {
        let before = first_pages(vs.drop_last());
        match page_record_of(vs.last().value) {
            Some((first, _, _)) if first != 0 => before.push(first),
            _ => before,
        }
    }
}

/// The first page that the record of a version points at, zero where there is none.
pub open spec fn first_page(v: Version) -> u64 {
    match page_record_of(v.value) {
        Some((first, _, _)) => first,
        None => 0,
    }
}

/// The chain has a version with pages at that place.
pub open spec fn has_pages(m: Chains, k: Seq<u8>, i: int) -> bool {
    m.contains_key(k) && 0 <= i < m[k].len() && first_page(m[k][i]) != 0
}

/// The pages of the blob at that place.
pub open spec fn pages_of(
    m: Chains,
    pages: Map<u64, PageView>,
    fuel: nat,
    k: Seq<u8>,
    i: int,
) -> Set<u64> {
    blob_pages(pages, first_page(m[k][i]), fuel)
}

/// Every version that has pages has its blob there, and no two of them share a page.
pub open spec fn are_apart(m: Chains, pages: Map<u64, PageView>, fuel: nat) -> bool {
    &&& forall|k: Seq<u8>, i: int| #[trigger]
        has_pages(m, k, i) ==> blob_data(pages, first_page(m[k][i]), fuel) is Ok
    &&& forall|k: Seq<u8>, i: int, l: Seq<u8>, j: int|
        #[trigger] has_pages(m, k, i) && #[trigger] has_pages(m, l, j) && (k != l || i != j)
            ==> pages_of(m, pages, fuel, k, i).disjoint(pages_of(m, pages, fuel, l, j))
}

/// A blob that can be read has the same pages however far it is followed beyond its end.
proof fn lemma_more_fuel(pages: Map<u64, PageView>, id: u64, fuel: nat, more: nat)
    requires
        blob_data(pages, id, fuel) is Ok,
        fuel <= more,
    ensures
        blob_data(pages, id, more) == blob_data(pages, id, fuel),
        blob_pages(pages, id, more) == blob_pages(pages, id, fuel),
    decreases fuel,
{
    let next = vstd::bytes::spec_u64_from_le_bytes(pages[id].data.subrange(0, 8));
    if next != 0 {
        lemma_more_fuel(pages, next, (fuel - 1) as nat, (more - 1) as nat);
    }
}

/// Blobs stay where they are as long as their pages stay.
proof fn lemma_pages_stay(
    before: Map<u64, PageView>,
    after: Map<u64, PageView>,
    id: u64,
    fuel: nat,
    more: nat,
)
    requires
        pages_stay(before, after),
        blob_data(before, id, fuel) is Ok,
        fuel <= more,
    ensures
        blob_data(after, id, more) == blob_data(before, id, fuel),
        blob_pages(after, id, more) == blob_pages(before, id, fuel),
        forall|p: u64| #[trigger]
            blob_pages(before, id, fuel).contains(p) ==> before.contains_key(p),
{
    lemma_known_pages(before, id, fuel);
    assert forall|p: u64| #[trigger] blob_pages(before, id, fuel).contains(p) implies
        after.contains_key(p) && after[p] == before[p] by {
        assert(before.contains_key(p));
    }
    lemma_same_pages(before, after, id, fuel);
    lemma_more_fuel(after, id, fuel, more);
}

/// A version in front that has no pages, or pages of its own, leaves all blobs apart.
proof fn lemma_put_stays_apart(
    m: Chains,
    before: Map<u64, PageView>,
    fuel: nat,
    after: Map<u64, PageView>,
    more: nat,
    key: Seq<u8>,
    record: Seq<u8>,
    tx: TransactionId,
)
    requires
        are_apart(m, before, fuel),
        pages_stay(before, after),
        fuel <= more,
        ({
            let first = first_page(crate::txn::pending(record, tx));
            first != 0 ==> blob_data(after, first, more) is Ok && blob_pages(
                after,
                first,
                more,
            ).disjoint(before.dom())
        }),
    ensures
        are_apart(with_put(m, key, record, tx), after, more),
{
    let m2 = with_put(m, key, record, tx);
    let back = |k: Seq<u8>, i: int| if k == key {
        i - 1
    } else {
        i
    };
    assert forall|k: Seq<u8>, i: int| #[trigger]
        has_pages(m2, k, i) && !(k == key && i == 0) implies {
        &&& has_pages(m, k, back(k, i))
        &&& m2[k][i] == m[k][back(k, i)]
        &&& blob_data(after, first_page(m2[k][i]), more) is Ok
        &&& pages_of(m2, after, more, k, i) == pages_of(m, before, fuel, k, back(k, i))
        &&& pages_of(m2, after, more, k, i).subset_of(before.dom())
    } by {
        assert(m2[k][i] == m[k][back(k, i)]);
        assert(has_pages(m, k, back(k, i)));
        lemma_pages_stay(before, after, first_page(m2[k][i]), fuel, more);
    }
    assert forall|k: Seq<u8>, i: int, l: Seq<u8>, j: int|
        #[trigger] has_pages(m2, k, i) && #[trigger] has_pages(m2, l, j) && (k != l || i
            != j) implies pages_of(m2, after, more, k, i).disjoint(
        pages_of(m2, after, more, l, j),
    ) by {
        if !(k == key && i == 0) && !(l == key && j == 0) {
            assert(has_pages(m, k, back(k, i)) && has_pages(m, l, back(l, j)));
        }
    }
}

/// Commits move no blob.
proof fn lemma_commit_stays_apart(
    m: Chains,
    pages: Map<u64, PageView>,
    fuel: nat,
    tx: TransactionId,
    lsn: LogSequenceNumber,
)
    requires
        are_apart(m, pages, fuel),
    ensures
        are_apart(with_commit(m, tx, lsn), pages, fuel),
{
    let m2 = with_commit(m, tx, lsn);
    assert forall|k: Seq<u8>, i: int| #[trigger] has_pages(m2, k, i) implies has_pages(m, k, i)
        && first_page(m2[k][i]) == first_page(m[k][i]) by {
        assert(m2[k][i].value == m[k][i].value);
    }
    assert forall|k: Seq<u8>, i: int, l: Seq<u8>, j: int|
        #[trigger] has_pages(m2, k, i) && #[trigger] has_pages(m2, l, j) && (k != l || i
            != j) implies pages_of(m2, pages, fuel, k, i).disjoint(
        pages_of(m2, pages, fuel, l, j),
    ) by {
        assert(has_pages(m, k, i) && has_pages(m, l, j));
    }
}

/// What a vacuum releases are blobs of versions that it drops.
proof fn lemma_dropped_pages(index: ByteMap<VersionChain>, min: LogSequenceNumber, n: int, x: int)
    requires
        index.wf(),
        0 <= n <= index.entries@.len(),
        0 <= x < dropped_pages(index, min, n).len(),
    ensures
        exists|k: Seq<u8>, i: int| #[trigger]
            has_pages(index.chains(), k, i) && vacuumed(index.chains()[k], min).len() <= i
                && first_page(index.chains()[k][i]) == dropped_pages(index, min, n)[x],
    decreases n,
{
    let before = dropped_pages(index, min, n - 1);
    let vs = index.entries@[n - 1].1@;
    let here = first_pages(dropped(vs, min));
    if x < before.len() {
        lemma_dropped_pages(index, min, n - 1, x);
        assert(dropped_pages(index, min, n)[x] == before[x]);
    } else {
        let d = dropped(vs, min);
        let j = lemma_first_pages(d, x - before.len());
        lemma_dropped(vs, min);
        let i = vacuumed(vs, min).len() + j;
        assert(vs[i] == d[j]);
        index.lemma_entry(n - 1);
        let k = index.entries@[n - 1].0@;
        assert(index.chains()[k] == vs);
        assert(has_pages(index.chains(), k, i));
    }
}

proof fn lemma_first_pages(vs: Seq<Version>, x: int) -> (j: int)
    requires
        0 <= x < first_pages(vs).len(),
    ensures
        0 <= j < vs.len(),
        first_page(vs[j]) == first_pages(vs)[x],
        first_page(vs[j]) != 0,
    decreases vs.len(),
{
    let before = first_pages(vs.drop_last());
    if x < before.len() {
        let j = lemma_first_pages(vs.drop_last(), x);
        assert(vs.drop_last()[j] == vs[j]);
        j
    } else {
        vs.len() - 1
    }
}

/// A vacuum leaves the blobs of the versions that it keeps where they are.
proof fn lemma_vacuum_keeps_blob(
    index: ByteMap<VersionChain>,
    pages: Map<u64, PageView>,
    fuel: nat,
    min: LogSequenceNumber,
    k: Seq<u8>,
    i: int,
)
    requires
        index.wf(),
        are_apart(index.chains(), pages, fuel),
        has_pages(with_vacuum(index.chains(), min), k, i),
    ensures
        ({
            let m = index.chains();
            let n = index.entries@.len() as int;
            let left = all_freed(pages, dropped_pages(index, min, n), fuel);
            let first = first_page(m[k][i]);
            &&& has_pages(m, k, i)
            &&& with_vacuum(m, min)[k][i] == m[k][i]
            &&& blob_data(left, first, fuel) == blob_data(pages, first, fuel)
            &&& blob_pages(left, first, fuel) == blob_pages(pages, first, fuel)
        }),
{
    let m = index.chains();
    let n = index.entries@.len() as int;
    let firsts = dropped_pages(index, min, n);
    lemma_dropped(m[k], min);
    assert(vacuumed(m[k], min)[i] == m[k][i]);
    assert(has_pages(m, k, i));
    let first = first_page(m[k][i]);
    assert forall|x: int| 0 <= x < firsts.len() implies blob_pages(
        pages,
        #[trigger] firsts[x],
        fuel,
    ).disjoint(blob_pages(pages, first, fuel)) by {
        lemma_dropped_pages(index, min, n, x);
        let (l, j) = choose|l: Seq<u8>, j: int| #[trigger]
            has_pages(m, l, j) && vacuumed(m[l], min).len() <= j && first_page(m[l][j])
                == firsts[x];
        assert(k != l || i != j);
        assert(pages_of(m, pages, fuel, l, j).disjoint(pages_of(m, pages, fuel, k, i)));
    }
    law_vacuum_keeps_other_blobs(pages, firsts, first, fuel);
}

/// The first pages of all versions that a vacuum takes from the first `n` keys.
pub open spec fn dropped_pages(
    index: ByteMap<VersionChain>,
    min: LogSequenceNumber,
    n: int,
) -> Seq<u64>
    decreases n,
{
    if n <= 0 {
        Seq::empty()
    } else {
        dropped_pages(index, min, n - 1) + first_pages(dropped(index.entries@[n - 1].1@, min))
    }
}

/// The blob of every version that a vacuum takes, of every key, is among those to be released.
pub proof fn law_dropped_blobs_are_listed(
    index: ByteMap<VersionChain>,
    min: LogSequenceNumber,
    n: int,
    i: int,
    j: int,
)
    requires
        0 <= i < n <= index.entries@.len(),
        0 <= j < dropped(index.entries@[i].1@, min).len(),
        first_page(dropped(index.entries@[i].1@, min)[j]) != 0,
    ensures
        dropped_pages(index, min, n).contains(first_page(dropped(index.entries@[i].1@, min)[j])),
    decreases n,
{
    let vs = dropped(index.entries@[i].1@, min);
    let page = first_page(vs[j]);
    let before = dropped_pages(index, min, n - 1);
    let last = first_pages(dropped(index.entries@[n - 1].1@, min));
    let all = dropped_pages(index, min, n);
    if i < n - 1 {
        law_dropped_blobs_are_listed(index, min, n - 1, i, j);
        assert(all[before.index_of(page)] == page);
    } else {
        let named = |v: Version| first_page(v) != 0;
        law_first_pages_are_named(vs);
        vs.lemma_filter_contains(named, j);
        let k = vs.filter(named).index_of(vs[j]);
        assert(last[k] == page);
        assert(all[before.len() + k] == page);
    }
}

/// The pages that are left when several blobs are released one after the other.
pub open spec fn all_freed(pages: Map<u64, PageView>, firsts: Seq<u64>, fuel: nat) -> Map<
    u64,
    PageView,
>
    decreases firsts.len(),
{
    if firsts.len() == 0 {
        pages
    } else {
        blob_freed(all_freed(pages, firsts.drop_last(), fuel), firsts.last(), fuel)
    }
}

/// The pages of one state of the store are there in another.
pub open spec fn pages_stay(before: Map<u64, PageView>, after: Map<u64, PageView>) -> bool {
    forall|id: u64| #[trigger]
        before.contains_key(id) ==> after.contains_key(id) && after[id] == before[id]
}

/// A blob that can be read stays readable as long as its pages stay.
pub proof fn law_blob_stays_readable(
    before: Map<u64, PageView>,
    after: Map<u64, PageView>,
    id: u64,
    fuel: nat,
    more: nat,
)
    requires
        pages_stay(before, after),
        blob_data(before, id, fuel) is Ok,
        fuel <= more,
    ensures
        blob_data(after, id, more) == blob_data(before, id, fuel),
    decreases fuel,
{
    assert(before.contains_key(id));
    let next = vstd::bytes::spec_u64_from_le_bytes(before[id].data.subrange(0, 8));
    if next != 0 {
        law_blob_stays_readable(before, after, next, (fuel - 1) as nat, (more - 1) as nat);
    }
}

proof fn lemma_page_stays(pages: Map<u64, PageView>, firsts: Seq<u64>, fuel: nat, p: u64)
    requires
        pages.contains_key(p),
        forall|i: int|
            0 <= i < firsts.len() ==> !blob_pages(pages, #[trigger] firsts[i], fuel).contains(p),
    ensures
        is_part(all_freed(pages, firsts, fuel), pages),
        all_freed(pages, firsts, fuel).contains_key(p),
    decreases firsts.len(),
{
    if firsts.len() > 0 {
        let rest = firsts.drop_last();
        let last = firsts[firsts.len() - 1];
        assert forall|i: int| 0 <= i < rest.len() implies !blob_pages(
            pages,
            #[trigger] rest[i],
            fuel,
        ).contains(p) by {
            assert(rest[i] == firsts[i]);
        }
        lemma_page_stays(pages, rest, fuel, p);
        let middle = all_freed(pages, rest, fuel);
        lemma_fewer_pages(middle, pages, last, fuel);
        lemma_freed(middle, last, fuel);
        let left = blob_freed(middle, last, fuel);
        assert(!blob_pages(middle, last, fuel).contains(p));
        assert(left.contains_key(p));
        assert forall|q: u64| #[trigger] left.contains_key(q) implies pages.contains_key(q)
            && left[q] == pages[q] by {
            assert(middle.contains_key(q));
        }
    }
}

/// A vacuum releases every page of every blob that it drops, where no two of them share a page.
pub proof fn law_vacuum_releases_dropped_blobs(
    pages: Map<u64, PageView>,
    firsts: Seq<u64>,
    j: int,
    ids: Seq<u64>,
    fuel: nat,
    p: u64,
)
    requires
        0 <= j < firsts.len(),
        0 < ids.len() <= fuel,
        is_page_chain(pages, ids),
        ids.no_duplicates(),
        ids[0] == firsts[j],
        ids.contains(p),
        forall|i: int, k: int|
            0 <= i < j && 0 <= k < ids.len() ==> !#[trigger] blob_pages(
                pages,
                firsts[i],
                fuel,
            ).contains(#[trigger] ids[k]),
    ensures
        !all_freed(pages, firsts, fuel).contains_key(p),
    decreases firsts.len(),
{
    let rest = firsts.drop_last();
    let last = firsts[firsts.len() - 1];
    let middle = all_freed(pages, rest, fuel);
    lemma_freed(middle, last, fuel);
    if j < firsts.len() - 1 {
        assert(rest[j] == firsts[j]);
        assert forall|i: int, k: int| 0 <= i < j && 0 <= k < ids.len() implies
            !#[trigger] blob_pages(pages, rest[i], fuel).contains(#[trigger] ids[k]) by {
            assert(rest[i] == firsts[i]);
            assert(!blob_pages(pages, firsts[i], fuel).contains(ids[k]));
        }
        law_vacuum_releases_dropped_blobs(pages, rest, j, ids, fuel, p);
        if all_freed(pages, firsts, fuel).contains_key(p) {
            assert(middle.contains_key(p));
        }
    } else {
        assert forall|k: int| 0 <= k < ids.len() implies middle.contains_key(#[trigger] ids[k])
            && middle[ids[k]] == pages[ids[k]] by {
            assert(ids[k] != 0 && pages.contains_key(ids[k]));
            assert forall|i: int| 0 <= i < rest.len() implies !blob_pages(
                pages,
                #[trigger] rest[i],
                fuel,
            ).contains(ids[k]) by {
                assert(rest[i] == firsts[i]);
                assert(!blob_pages(pages, firsts[i], fuel).contains(ids[k]));
            }
            lemma_page_stays(pages, rest, fuel, ids[k]);
        }
        assert(is_page_chain(middle, ids)) by {
            assert forall|i: int| 0 <= i < ids.len() implies #[trigger] ids[i] != 0
                && middle.contains_key(ids[i]) && middle[ids[i]] == pages[ids[i]] by {}
        }
        law_release_takes_every_page(middle, ids, fuel, p);
    }
}

/// The first pages of versions are those that their records name, but for zero, in order.
pub proof fn law_first_pages_are_named(vs: Seq<Version>)
    ensures
        first_pages(vs) == vs.filter(|v: Version| first_page(v) != 0).map_values(
            |v: Version| first_page(v),
        ),
    decreases vs.len(),
{
    reveal(Seq::filter);
    let named = |v: Version| first_page(v) != 0;
    let page = |v: Version| first_page(v);
    if vs.len() > 0 {
        let rest = vs.drop_last();
        law_first_pages_are_named(rest);
        if named(vs.last()) {
            assert(rest.filter(named).push(vs.last()).map_values(page) =~= rest.filter(
                named,
            ).map_values(page).push(first_page(vs.last())));
        }
    } else {
        assert(vs.filter(named).map_values(page) =~= Seq::empty());
    }
}

/// Releasing several blobs leaves every blob that shares no page with any of them as it is: a
/// vacuum keeps the blobs of the versions that it keeps.
pub proof fn law_vacuum_keeps_other_blobs(
    pages: Map<u64, PageView>,
    firsts: Seq<u64>,
    other: u64,
    fuel: nat,
)
    requires
        blob_data(pages, other, fuel) is Ok,
        forall|i: int|
            0 <= i < firsts.len() ==> blob_pages(pages, #[trigger] firsts[i], fuel).disjoint(
                blob_pages(pages, other, fuel),
            ),
    ensures
        blob_data(all_freed(pages, firsts, fuel), other, fuel) == blob_data(pages, other, fuel),
        blob_pages(all_freed(pages, firsts, fuel), other, fuel) == blob_pages(pages, other, fuel),
        is_part(all_freed(pages, firsts, fuel), pages),
    decreases firsts.len(),
{
    if firsts.len() > 0 {
        let rest = firsts.drop_last();
        assert forall|i: int| 0 <= i < rest.len() implies blob_pages(
            pages,
            #[trigger] rest[i],
            fuel,
        ).disjoint(blob_pages(pages, other, fuel)) by {
            assert(rest[i] == firsts[i]);
        }
        law_vacuum_keeps_other_blobs(pages, rest, other, fuel);
        let mid = all_freed(pages, rest, fuel);
        let last = firsts[firsts.len() - 1];
        lemma_fewer_pages(mid, pages, last, fuel);
        assert(blob_pages(pages, last, fuel).disjoint(blob_pages(pages, other, fuel)));
        assert(blob_pages(mid, last, fuel).disjoint(blob_pages(mid, other, fuel)));
        law_release_keeps_others(mid, last, other, fuel);
        lemma_freed(mid, last, fuel);
        lemma_known_pages(mid, other, fuel);
        let left = blob_freed(mid, last, fuel);
        assert forall|p: u64| #[trigger] blob_pages(mid, other, fuel).contains(p) implies
            left.contains_key(p) && left[p] == mid[p] by {
            assert(!blob_pages(mid, last, fuel).contains(p));
        }
        lemma_same_pages(mid, left, other, fuel);
        assert forall|p: u64| #[trigger] left.contains_key(p) implies pages.contains_key(p)
            && left[p] == pages[p] by {
            assert(mid.contains_key(p));
        }
    }
}

/// A blob that is put shares no page with any that could be read before.
pub proof fn law_put_blob_is_apart(
    before: Map<u64, PageView>,
    after: Map<u64, PageView>,
    new: u64,
    other: u64,
    fuel: nat,
    more: nat,
)
    requires
        pages_stay(before, after),
        blob_pages(after, new, more).disjoint(before.dom()),
        blob_data(before, other, fuel) is Ok,
        fuel <= more,
    ensures
        blob_pages(after, other, fuel) == blob_pages(before, other, fuel),
        blob_pages(after, new, more).disjoint(blob_pages(after, other, fuel)),
{
    lemma_known_pages(before, other, fuel);
    assert forall|p: u64| #[trigger] blob_pages(before, other, fuel).contains(p) implies
        after.contains_key(p) && after[p] == before[p] by {
        assert(before.contains_key(p));
    }
    lemma_same_pages(before, after, other, fuel);
    assert forall|p: u64| #[trigger] blob_pages(after, new, more).contains(p) implies !blob_pages(
        after,
        other,
        fuel,
    ).contains(p) by {
        assert(!before.dom().contains(p));
    }
}

impl PagedBlob {
    /// The keys of the index ascend.
    pub open spec fn sorted(&self) -> bool {
        self.index.wf()
    }

    /// The keys of the index ascend, every version has its blob in the store, and no two of them
    /// share a page.
    pub open spec fn wf(&self, pager: Pager) -> bool {
        &&& self.sorted()
        &&& are_apart(self.chains(), pager.pages(), pager.slots@.len())
    }

    /// The versions of each key.
    pub open spec fn chains(&self) -> Chains {
        self.index.chains()
    }

    /// The tables have the same name and root page.
    pub open spec fn same_identity(&self, other: &Self) -> bool {
        &&& self.id == other.id
        &&& self.name == other.name
        &&& self.root_page_id == other.root_page_id
    }

    /// An empty table with a new root page.
    pub fn new(id: TableId, name: String, pager: &mut Pager) -> (r: TableResult<Self>)
        requires
            old(pager).wf(),
        ensures
            r is Ok,
            final(pager).wf(),
            final(pager).same_meta(old(pager)),
            !old(pager).pages().contains_key(r->Ok_0.root_page_id.0),
            final(pager).pages() == old(pager).pages().insert(
                r->Ok_0.root_page_id.0,
                PageView {
                    page_type: PageType::Catalog,
                    data: blank(old(pager).capacity() as int),
                },
            ),
            r->Ok_0.wf(*final(pager)),
            r->Ok_0.chains() == Map::<Seq<u8>, Seq<Version>>::empty(),
            r->Ok_0.id == id,
            r->Ok_0.name == name,
    {
        let root_page_id = pager.allocate_page(PageType::Catalog);
        let capacity: usize = pager.page_size().data_size();
        let page = Page { id: root_page_id, page_type: PageType::Catalog, data: zeros(capacity) };
        assert(page.data@ =~= blank(capacity as int));
        match pager.write_page(page) {
            Ok(()) => {},
            Err(e) => return Err(TableError::Pager(e)),
        }
        proof {
            assert(pager.pages() =~= old(pager).pages().insert(
                root_page_id.0,
                PageView {
                    page_type: PageType::Catalog,
                    data: blank(old(pager).capacity() as int),
                },
            ));
        }
        Ok(Self::open(id, name, root_page_id))
    }

    /// The table of a root page. Its index starts empty.
    pub fn open(id: TableId, name: String, root_page_id: PageId) -> (r: Self)
        ensures
            forall|pager: Pager| #[trigger] r.wf(pager),
            r.chains() == Map::<Seq<u8>, Seq<Version>>::empty(),
            r.id == id,
            r.name == name,
            r.root_page_id == root_page_id,
    {
        let r = PagedBlob { id, name, root_page_id, index: ByteMap::new() };
        assert(r.chains() =~= Map::<Seq<u8>, Seq<Version>>::empty());
        r
    }

    /// The root page.
    pub fn root_page_id(&self) -> (r: PageId)
        ensures
            r == self.root_page_id,
    {
        self.root_page_id
    }

    /// The newest committed blob of a key, none if it is deleted.
    pub fn get(&self, pager: &Pager, key: &[u8]) -> (r: TableResult<Option<ValueBuf>>)
        requires
            self.sorted(),
            pager.wf(),
        ensures
            ({
                let found = stored_blob(
                    latest_committed(chain_of(self.chains(), key@)),
                    pager.pages(),
                    pager.slots@.len(),
                );
                &&& r is Ok <==> found is Ok
                &&& r matches Ok(v) ==> value_view(v) == found->Ok_0
                &&& r matches Err(e) ==> found->Err_0 == e
            }),
    {
        match self.index.get(key) {
            Some(chain) => read_stored(chain.latest_committed(), pager),
            None => Ok(None),
        }
    }

    /// The blob of a key that the snapshot sees, none if it is deleted.
    pub fn get_snapshot(&self, pager: &Pager, key: &[u8], snapshot: &Snapshot) -> (r: TableResult<
        Option<ValueBuf>,
    >)
        requires
            self.sorted(),
            pager.wf(),
        ensures
            ({
                let found = stored_blob(
                    snapshot_read(self.chains(), key@, snapshot.lsn, snapshot.active_txns@),
                    pager.pages(),
                    pager.slots@.len(),
                );
                &&& r is Ok <==> found is Ok
                &&& r matches Ok(v) ==> value_view(v) == found->Ok_0
                &&& r matches Err(e) ==> found->Err_0 == e
            }),
    {
        read_stored(self.index.visible(key, snapshot), pager)
    }

    /// The table after a blob was put in new pages.
    pub open spec fn is_put(
        &self,
        pager: Pager,
        before: &Self,
        pager0: Pager,
        key: Seq<u8>,
        value: Seq<u8>,
        tx: TransactionId,
    ) -> bool {
        let payload = pager0.capacity() - BLOB_HEADER_SIZE;
        let count = blob_chunks(value, payload).len() as u64;
        &&& pages_stay(pager0.pages(), pager.pages())
        &&& exists|first: u64|
            {
                &&& first != 0
                &&& !pager0.pages().contains_key(first)
                &&& page_record_of(#[trigger] page_record(first, value.len() as u64, count))
                    == Some((first, value.len() as u64, count))
                &&& blob_data(pager.pages(), first, pager.slots@.len()) == Ok::<
                    Seq<u8>,
                    TableError,
                >(padded(value, payload))
                &&& blob_pages(pager.pages(), first, pager.slots@.len()).disjoint(
                    pager0.pages().dom(),
                )
                &&& self.chains() == with_put(
                    before.chains(),
                    key,
                    page_record(first, value.len() as u64, count),
                    tx,
                )
            }
    }

    /// Puts a blob outside of any transaction, under the transaction number zero.
    pub fn put(&mut self, pager: &mut Pager, key: &[u8], value: &[u8]) -> (r: TableResult<u64>)
        requires
            old(self).wf(*old(pager)),
            old(pager).wf(),
        ensures
            r == Ok::<u64, TableError>(value@.len() as u64),
            final(self).wf(*final(pager)),
            final(self).same_identity(old(self)),
            final(pager).wf(),
            final(pager).same_meta(old(pager)),
            final(self).is_put(
                *final(pager),
                old(self),
                *old(pager),
                key@,
                value@,
                TransactionId(0),
            ),
    {
        self.put_tx(pager, key, value, TransactionId(0))
    }

    /// Writes a blob to new pages and notes where it stands.
    pub fn put_tx(&mut self, pager: &mut Pager, key: &[u8], value: &[u8], tx_id: TransactionId) -> (r:
        TableResult<u64>)
        requires
            old(self).wf(*old(pager)),
            old(pager).wf(),
        ensures
            r == Ok::<u64, TableError>(value@.len() as u64),
            final(self).wf(*final(pager)),
            final(self).same_identity(old(self)),
            final(pager).wf(),
            final(pager).same_meta(old(pager)),
            final(self).is_put(*final(pager), old(self), *old(pager), key@, value@, tx_id),
    {
        let (first, count) = write_blob_data(pager, value);
        let record = write_page_record(first.0, value.len() as u64, count as u64);
        self.index.push_version(copy_bytes(key), record, tx_id);
        proof {
            let payload = old(pager).capacity() - BLOB_HEADER_SIZE;
            assert(page_record_of(page_record(first.0, value@.len() as u64, count as u64)) == Some(
                (first.0, value@.len() as u64, count as u64),
            ));
            assert(count == blob_chunks(value@, payload).len());
            lemma_put_stays_apart(
                old(self).chains(),
                old(pager).pages(),
                old(pager).slots@.len(),
                pager.pages(),
                pager.slots@.len(),
                key@,
                record@,
                tx_id,
            );
        }
        Ok(value.len() as u64)
    }

    /// The table after a key was deleted, with the outcome.
    pub open spec fn is_deleted(
        &self,
        before: &Self,
        key: Seq<u8>,
        tx: TransactionId,
        r: TableResult<bool>,
    ) -> bool {
        &&& r == Ok::<bool, TableError>(before.chains().contains_key(key))
        &&& if before.chains().contains_key(key) {
            &&& self.chains() == with_put(before.chains(), key, page_record(0, 0, 0), tx)
            &&& page_record_of(page_record(0, 0, 0)) == Some((0u64, 0u64, 0u64))
        } else {
            *self == *before
        }
    }

    /// Deletes a key outside of any transaction, under the transaction number zero.
    pub fn delete(&mut self, key: &[u8]) -> (r: TableResult<bool>)
        requires
            old(self).sorted(),
        ensures
            final(self).sorted(),
            forall|pager: Pager| #[trigger] old(self).wf(pager) ==> final(self).wf(pager),
            final(self).same_identity(old(self)),
            final(self).is_deleted(old(self), key@, TransactionId(0), r),
    {
        self.delete_tx(key, TransactionId(0))
    }

    /// Marks a known key as deleted by a version without pages. Returns whether it is known.
    pub fn delete_tx(&mut self, key: &[u8], tx_id: TransactionId) -> (r: TableResult<bool>)
        requires
            old(self).sorted(),
        ensures
            final(self).sorted(),
            forall|pager: Pager| #[trigger] old(self).wf(pager) ==> final(self).wf(pager),
            final(self).same_identity(old(self)),
            final(self).is_deleted(old(self), key@, tx_id, r),
    {
        if !self.index.contains_key(key) {
            return Ok(false);
        }
        let record = write_page_record(0, 0, 0);
        self.index.push_version(copy_bytes(key), record, tx_id);
        proof {
            assert forall|pager: Pager| #[trigger] old(self).wf(pager) implies self.wf(pager) by {
                lemma_put_stays_apart(
                    old(self).chains(),
                    pager.pages(),
                    pager.slots@.len(),
                    pager.pages(),
                    pager.slots@.len(),
                    key@,
                    record@,
                    tx_id,
                );
            }
        }
        Ok(true)
    }

    /// Commits every version that the transaction left pending.
    pub fn commit_versions(&mut self, tx_id: TransactionId, commit_lsn: LogSequenceNumber) -> (r:
        TableResult<()>)
        requires
            old(self).sorted(),
        ensures
            r is Ok,
            final(self).sorted(),
            forall|pager: Pager| #[trigger] old(self).wf(pager) ==> final(self).wf(pager),
            final(self).same_identity(old(self)),
            final(self).chains() == with_commit(old(self).chains(), tx_id, commit_lsn),
    {
        self.index.commit_of(tx_id, commit_lsn);
        proof {
            assert(self.chains() =~= with_commit(old(self).chains(), tx_id, commit_lsn));
            assert forall|pager: Pager| #[trigger] old(self).wf(pager) implies self.wf(pager) by {
                lemma_commit_stays_apart(
                    old(self).chains(),
                    pager.pages(),
                    pager.slots@.len(),
                    tx_id,
                    commit_lsn,
                );
            }
        }
        Ok(())
    }

    fn collect_dropped(&self, min: LogSequenceNumber) -> (r: Vec<u64>)
        requires
            self.sorted(),
        ensures
            r@ == dropped_pages(self.index, min, self.index.entries@.len() as int),
    {
        let mut out: Vec<u64> = Vec::new();
        let n: usize = self.index.entries.len();
        let mut i: usize = 0;
        while i < n
            invariant
                n == self.index.entries@.len(),
                i <= n,
                out@ == dropped_pages(self.index, min, i as int),
            decreases n - i,
        {
            let values = self.index.entries[i].1.dropped_values(min);
            let ghost vs = dropped(self.index.entries@[i as int].1@, min);
            let ghost before = out@;
            let mut j: usize = 0;
            assert(vs.take(0) =~= Seq::empty());
            assert(before + first_pages(vs.take(0)) =~= before);
            while j < values.len()
                invariant
                    j <= values@.len() == vs.len(),
                    forall|k: int| 0 <= k < vs.len() ==> (#[trigger] values@[k])@ == vs[k].value,
                    out@ == before + first_pages(vs.take(j as int)),
                decreases values@.len() - j,
            {
                let ghost mid = out@;
                proof {
                    assert(vs.take(j + 1).drop_last() =~= vs.take(j as int));
                    assert(vs.take(j + 1).last() == vs[j as int]);
                }
                match read_page_record(values[j].as_slice()) {
                    Some((first, _, _)) => {
                        if first != 0 {
                            out.push(first);
                        }
                    },
                    None => {},
                }
                assert(out@ =~= before + first_pages(vs.take(j + 1)));
                j += 1;
            }
            assert(vs.take(j as int) =~= vs);
            i += 1;
        }
        out
    }

    /// Drops the versions that no reader at `min_visible_lsn` or later can see, but for one base
    /// version per key, and releases their pages. Returns how many versions went.
    pub fn vacuum(&mut self, pager: &mut Pager, min_visible_lsn: LogSequenceNumber) -> (r:
        TableResult<usize>)
        requires
            old(self).wf(*old(pager)),
            old(pager).wf(),
        ensures
            r is Ok,
            r->Ok_0 as int == saturated(
                version_total(old(self).chains()) - version_total(final(self).chains()),
            ),
            final(self).wf(*final(pager)),
            final(self).same_identity(old(self)),
            final(self).chains() == with_vacuum(old(self).chains(), min_visible_lsn),
            final(pager).wf(),
            final(pager).same_meta(old(pager)),
            final(pager).slots@.len() == old(pager).slots@.len(),
            final(pager).pages() == all_freed(
                old(pager).pages(),
                dropped_pages(
                    old(self).index,
                    min_visible_lsn,
                    old(self).index.entries@.len() as int,
                ),
                old(pager).slots@.len(),
            ),
    {
        let firsts = self.collect_dropped(min_visible_lsn);
        let removed: usize = self.index.vacuum(min_visible_lsn);
        let mut i: usize = 0;
        let ghost all = firsts@;
        assert(all.take(0) =~= Seq::empty());
        while i < firsts.len()
            invariant
                i <= all.len(),
                all == firsts@,
                pager.wf(),
                pager.same_meta(old(pager)),
                pager.slots@.len() == old(pager).slots@.len(),
                pager.pages() == all_freed(
                    old(pager).pages(),
                    all.take(i as int),
                    old(pager).slots@.len(),
                ),
            decreases all.len() - i,
        {
            proof {
                assert(all.take(i + 1).drop_last() =~= all.take(i as int));
                assert(all.take(i + 1).last() == all[i as int]);
            }
            free_blob_pages(pager, PageId(firsts[i]));
            i += 1;
        }
        assert(all.take(i as int) =~= all);
        proof {
            let m = old(self).chains();
            let m2 = self.chains();
            let pages = old(pager).pages();
            let fuel = old(pager).slots@.len();
            assert(m2 =~= with_vacuum(m, min_visible_lsn));
            assert forall|k: Seq<u8>, i: int| #[trigger] has_pages(m2, k, i) implies {
                &&& has_pages(m, k, i)
                &&& m2[k][i] == m[k][i]
                &&& blob_data(pager.pages(), first_page(m2[k][i]), fuel) is Ok
                &&& pages_of(m2, pager.pages(), fuel, k, i) == pages_of(m, pages, fuel, k, i)
            } by {
                lemma_vacuum_keeps_blob(old(self).index, pages, fuel, min_visible_lsn, k, i);
            }
            assert forall|k: Seq<u8>, i: int, l: Seq<u8>, j: int|
                #[trigger] has_pages(m2, k, i) && #[trigger] has_pages(m2, l, j) && (k != l || i
                    != j) implies pages_of(m2, pager.pages(), fuel, k, i).disjoint(
                pages_of(m2, pager.pages(), fuel, l, j),
            ) by {
                assert(has_pages(m, k, i) && has_pages(m, l, j));
            }
        }
        Ok(removed)
    }

    /// The identifier of the table.
    pub fn table_id(&self) -> (r: TableId)
        ensures
            r == self.id,
    {
        self.id
    }

    /// The name of the table.
    pub fn name(&self) -> (r: &str)
        ensures
            r@ == self.name@,
    {
        self.name.as_str()
    }

    /// The engine of the table.
    pub fn kind(&self) -> (r: TableEngineKind)
        ensures
            r == TableEngineKind::Blob,
    {
        TableEngineKind::Blob
    }

    /// What the table can do.
    pub fn capabilities(&self) -> (r: TableCapabilities)
        ensures
            r == (TableCapabilities {
                ordered: false,
                point_lookup: true,
                prefix_scan: false,
                reverse_scan: false,
                range_delete: false,
                merge_operator: false,
                mvcc_native: true,
                append_optimized: false,
                memory_resident: false,
                disk_resident: true,
                supports_compression: true,
                supports_encryption: true,
            }),
    {
        TableCapabilities {
            ordered: false,
            point_lookup: true,
            prefix_scan: false,
            reverse_scan: false,
            range_delete: false,
            merge_operator: false,
            mvcc_native: true,
            append_optimized: false,
            memory_resident: false,
            disk_resident: true,
            supports_compression: true,
            supports_encryption: true,
        }
    }

    /// What is known of the table's contents.
    pub fn stats(&self) -> (r: TableResult<TableStatistics>)
        requires
            self.sorted(),
        ensures
            r == Ok::<TableStatistics, TableError>(
                TableStatistics {
                    row_count: Some(self.chains().dom().len() as u64),
                    page_count: None,
                    total_size_bytes: None,
                    key_stats: None,
                    value_stats: None,
                    last_updated_lsn: None,
                },
            ),
    {
        assert(self.chains().dom() =~= self.index@.dom());
        Ok(
            TableStatistics {
                row_count: Some(self.index.len() as u64),
                page_count: None,
                total_size_bytes: None,
                key_stats: None,
                value_stats: None,
                last_updated_lsn: None,
            },
        )
    }
}

/// A blob that was put and committed is what the table gives back as long as its pages stay.
pub proof fn law_committed_blob_is_read(
    before: PagedBlob,
    pager0: Pager,
    put: PagedBlob,
    pager1: Pager,
    later: Pager,
    key: Seq<u8>,
    value: Seq<u8>,
    tx: TransactionId,
    at: LogSequenceNumber,
    lsn: LogSequenceNumber,
    active: Seq<TransactionId>,
)
    requires
        put.is_put(pager1, &before, pager0, key, value, tx),
        value.len() <= u64::MAX,
        pages_stay(pager1.pages(), later.pages()),
        later.slots@.len() >= pager1.slots@.len(),
        at.0 <= lsn.0,
        !active.contains(tx),
    ensures
        ({
            let after = with_commit(put.chains(), tx, at);
            &&& stored_blob(
                latest_committed(chain_of(after, key)),
                later.pages(),
                later.slots@.len(),
            ) == Ok::<Option<Seq<u8>>, TableError>(Some(value))
            &&& stored_blob(
                snapshot_read(after, key, lsn, active),
                later.pages(),
                later.slots@.len(),
            ) == Ok::<Option<Seq<u8>>, TableError>(Some(value))
        }),
{
    let payload = pager0.capacity() - BLOB_HEADER_SIZE;
    let count = blob_chunks(value, payload).len() as u64;
    let first = choose|first: u64|
        {
            &&& first != 0
            &&& !pager0.pages().contains_key(first)
            &&& page_record_of(#[trigger] page_record(first, value.len() as u64, count)) == Some(
                (first, value.len() as u64, count),
            )
            &&& blob_data(pager1.pages(), first, pager1.slots@.len()) == Ok::<Seq<u8>, TableError>(
                padded(value, payload),
            )
            &&& put.chains() == with_put(
                before.chains(),
                key,
                page_record(first, value.len() as u64, count),
                tx,
            )
        };
    let record = page_record(first, value.len() as u64, count);
    let after = with_commit(put.chains(), tx, at);
    law_padded_starts_with_value(value, payload);
    assert(cut_to(padded(value, payload), value.len() as u64) =~= value);
    assert(put.chains()[key][0] == crate::txn::pending(record, tx));
    assert(after[key][0] == crate::txn::committed(crate::txn::pending(record, tx), at));
    law_blob_stays_readable(
        pager1.pages(),
        later.pages(),
        first,
        pager1.slots@.len(),
        later.slots@.len(),
    );
}

/// A committed deletion leaves nothing to read, whatever pages there are.
pub proof fn law_committed_deletion_hides(
    before: PagedBlob,
    deleted: PagedBlob,
    pager: Pager,
    key: Seq<u8>,
    tx: TransactionId,
    r: TableResult<bool>,
    at: LogSequenceNumber,
)
    requires
        deleted.is_deleted(&before, key, tx, r),
        before.chains().contains_key(key),
    ensures
        latest_committed(chain_of(deleted.chains(), key)) == latest_committed(
            chain_of(before.chains(), key),
        ),
        stored_blob(
            latest_committed(chain_of(with_commit(deleted.chains(), tx, at), key)),
            pager.pages(),
            pager.slots@.len(),
        ) == Ok::<Option<Seq<u8>>, TableError>(None),
{
    let after = with_commit(deleted.chains(), tx, at);
    let record = page_record(0, 0, 0);
    let vs = deleted.chains()[key];
    assert(vs[0] == crate::txn::pending(record, tx));
    assert(vs.drop_first() =~= before.chains()[key]);
    assert(after[key][0] == crate::txn::committed(crate::txn::pending(record, tx), at));
}

/// A vacuum up to `min` changes nothing for readers at `min` or later: they get the same blobs,
/// though pages were released.
pub proof fn law_vacuum_keeps_reads(
    before: PagedBlob,
    pager: Pager,
    after: PagedBlob,
    pager2: Pager,
    min: LogSequenceNumber,
    key: Seq<u8>,
    lsn: LogSequenceNumber,
)
    requires
        before.wf(pager),
        after.chains() == with_vacuum(before.chains(), min),
        pager2.slots@.len() == pager.slots@.len(),
        pager2.pages() == all_freed(
            pager.pages(),
            dropped_pages(before.index, min, before.index.entries@.len() as int),
            pager.slots@.len(),
        ),
        lsn.0 >= min.0,
    ensures
        stored_blob(
            snapshot_read(after.chains(), key, lsn, Seq::empty()),
            pager2.pages(),
            pager2.slots@.len(),
        ) == stored_blob(
            snapshot_read(before.chains(), key, lsn, Seq::empty()),
            pager.pages(),
            pager.slots@.len(),
        ),
        stored_blob(
            latest_committed(chain_of(after.chains(), key)),
            pager2.pages(),
            pager2.slots@.len(),
        ) == stored_blob(
            latest_committed(chain_of(before.chains(), key)),
            pager.pages(),
            pager.slots@.len(),
        ),
{
    let m = before.chains();
    let last = LogSequenceNumber(u64::MAX);
    if m.contains_key(key) {
        crate::txn::lemma_latest_is_visible(m[key]);
        crate::txn::lemma_latest_is_visible(after.chains()[key]);
        lemma_seen_blob_kept(before, pager, min, key, lsn);
        lemma_seen_blob_kept(before, pager, min, key, last);
    } else {
        assert(latest_committed(Seq::<Version>::empty()) is None);
    }
}

proof fn lemma_seen_blob_kept(
    before: PagedBlob,
    pager: Pager,
    min: LogSequenceNumber,
    key: Seq<u8>,
    lsn: LogSequenceNumber,
)
    requires
        before.wf(pager),
        before.chains().contains_key(key),
        lsn.0 >= min.0,
    ensures
        ({
            let fuel = pager.slots@.len();
            let left = all_freed(
                pager.pages(),
                dropped_pages(before.index, min, before.index.entries@.len() as int),
                fuel,
            );
            let vs = before.chains()[key];
            &&& visible_at(vacuumed(vs, min), lsn) == visible_at(vs, lsn)
            &&& stored_blob(visible_at(vs, lsn), left, fuel) == stored_blob(
                visible_at(vs, lsn),
                pager.pages(),
                fuel,
            )
        }),
{
    let vs = before.chains()[key];
    let short = vacuumed(vs, min);
    crate::txn::lemma_vacuum_keeps_reads(vs, min, lsn, Seq::empty());
    if visible_at(short, lsn) is Some {
        let i = crate::graph::edges::lemma_seen_version(short, lsn, Seq::empty());
        if first_page(short[i]) != 0 {
            assert(has_pages(with_vacuum(before.chains(), min), key, i));
            lemma_vacuum_keeps_blob(
                before.index,
                pager.pages(),
                pager.slots@.len(),
                min,
                key,
                i,
            );
        }
    }
}

} // verus!
