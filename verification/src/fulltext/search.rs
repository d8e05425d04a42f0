//! Searching an inverted index.
use crate::blob::file::hex_digits;
use crate::btree::memory::keys_where;
use crate::bytes::{bytes_equal, copy_bytes};
use crate::fulltext::index::{
    hit_of, hit_views, is_note, last_boost, law_added_document_is_noted, list_hits, list_of,
    query_hits, term_freq, with_all_commits, with_field, with_fields, without_text, HitView, Lists,
    PagedFullTextIndex, TermHit, TextField, TextQuery, BOOST_ONE,
};
use crate::fulltext::posting::{
    count_of, law_deleted_document_is_hidden, law_deletion_keeps_the_past,
    law_fresh_posting_is_seen, lemma_posting_index, moment_of, Moment, PostingList, PostingView,
};
use crate::fulltext::tokenizer::Tokenizer;
use crate::snap::Snapshot;
use crate::table::{
    ConsistencyWarning, SpecialtyTableCapabilities, SpecialtyTableStats, TableCapabilities,
    TableEngineKind, TableError, TableResult, TableStatistics, VerificationReport,
};
use crate::txn::saturated;
use crate::types::{LogSequenceNumber, TableId, TransactionId};
use vstd::prelude::*;
use vstd::string::*;
use vstd::utf8::encode_utf8;

verus! {

/// A byte string as the characters of digits to the base sixteen, two for each byte, high one
/// first.
pub open spec fn hex_text(s: Seq<u8>) -> Seq<char> {
    hex_digits(s).map_values(|d: u8| d as char)
}

/// Calls `hex::encode`, which writes each byte as two digits to the base sixteen, in lower case
/// and with the high one first.
#[verifier::external_body]
fn hex_encode(data: &[u8]) -> (r: String)
    ensures
        r@ == hex_text(data@),
{
    hex::encode(data)
}

fn list_term_freq(list: &PostingList, doc: &[u8], snapshot: Option<&Snapshot>) -> (r: (usize, u32))
    ensures
        r.0 as int == saturated(term_freq(list@, doc@, moment_of(snapshot))),
        r.1 == last_boost(list@, doc@, moment_of(snapshot)),
{
    let ghost l = list@;
    let ghost at = moment_of(snapshot);
    let mut freq: usize = 0;
    let mut boost: u32 = BOOST_ONE;
    let mut i: usize = 0;
    assert(l.take(0) =~= Seq::empty());
    while i < list.entries.len()
        invariant
            i <= list.entries@.len() == l.len(),
            l == list@,
            at == moment_of(snapshot),
            freq as int == saturated(term_freq(l.take(i as int), doc@, at)),
            0 <= term_freq(l.take(i as int), doc@, at),
            boost == last_boost(l.take(i as int), doc@, at),
        decreases list.entries@.len() - i,
    {
        proof {
            assert(l.take(i + 1).drop_last() =~= l.take(i as int));
            assert(l.take(i + 1).last() == l[i as int]);
        }
        if bytes_equal(list.entries[i].doc_id.as_slice(), doc) {
            let counts: bool = match snapshot {
                Some(s) => list.entries[i].is_visible(s),
                None => true,
            };
            if counts {
                freq = freq.saturating_add(list.entries[i].positions.len());
                boost = list.entries[i].boost;
            }
        }
        i += 1;
    }
    assert(l.take(i as int) =~= l);
    (freq, boost)
}

/// A document with a score, where larger numbers stand for better scores.
#[derive(Debug)]
pub struct RankedDocument {
    pub doc_id: Vec<u8>,
    pub score: i64,
}

/// A ranked document as the contracts speak of it.
pub type Rank = (Seq<u8>, i64);

/// The documents as the contracts speak of them.
pub open spec fn ranks(docs: Seq<RankedDocument>) -> Seq<Rank> {
    Seq::new(docs.len(), |i: int| (docs[i].doc_id@, docs[i].score))
}

/// How many of the ranked documents stand before one with the given score.
pub open spec fn place(s: Seq<Rank>, score: i64) -> int
    decreases s.len(),
{
    if s.len() == 0 {
        0
    } else if s.last().1 >= score {
        s.len() as int
    } else {
        place(s.drop_last(), score)
    }
}

/// The documents from the best score down; of equal ones the earlier comes first.
pub open spec fn ranking(s: Seq<Rank>) -> Seq<Rank>
    decreases s.len(),
{
    if s.len() == 0 {
        Seq::empty()
    } else {
        let before = ranking(s.drop_last());
        before.insert(place(before, s.last().1), s.last())
    }
}

/// A ranking holds the same documents, and no score is better than the one before.
pub proof fn law_ranking_is_sorted(s: Seq<Rank>)
    ensures
        ranking(s).to_multiset() == s.to_multiset(),
        ranking(s).len() == s.len(),
        forall|i: int, j: int|
            0 <= i <= j < ranking(s).len() ==> (#[trigger] ranking(s)[i]).1 >= (
            #[trigger] ranking(s)[j]).1,
    decreases s.len(),
{
    broadcast use vstd::seq_lib::group_to_multiset_ensures;

    if s.len() > 0 {
        let t = s.drop_last();
        let x = s.last();
        law_ranking_is_sorted(t);
        let before = ranking(t);
        lemma_place(before, x.1);
        let p = place(before, x.1);
        let after = before.insert(p, x);
        assert(s =~= t.push(x));
        assert forall|i: int, j: int| 0 <= i <= j < after.len() implies (#[trigger] after[i]).1 >= (
        #[trigger] after[j]).1 by {
            let i0 = if i < p { i } else { i - 1 };
            let j0 = if j < p { j } else { j - 1 };
            if i != p && j != p {
                assert(before[i0].1 >= before[j0].1);
            } else if i == p && j > p {
                assert(before[j0].1 < x.1);
            } else if j == p && i < p {
                assert(before[i0].1 >= x.1);
            }
        }
    } else {
        assert(ranking(s) =~= s);
    }
}

/// Documents with the same score stay in the order in which they came.
pub proof fn law_ranking_keeps_ties_in_order(s: Seq<Rank>, score: i64)
    ensures
        ranking(s).filter(|r: Rank| r.1 == score) == s.filter(|r: Rank| r.1 == score),
    decreases s.len(),
{
    reveal(Seq::filter);
    let same = |r: Rank| r.1 == score;
    if s.len() > 0 {
        let x = s.last();
        let before = ranking(s.drop_last());
        law_ranking_keeps_ties_in_order(s.drop_last(), score);
        law_ranking_is_sorted(s.drop_last());
        lemma_place(before, x.1);
        let p = place(before, x.1);
        let (front, back) = (before.take(p), before.skip(p));
        assert(before =~= front + back);
        assert(before.insert(p, x) =~= front.push(x) + back);
        Seq::filter_distributes_over_add(front, back, same);
        Seq::filter_distributes_over_add(front.push(x), back, same);
        assert(front.push(x).drop_last() =~= front);
        if x.1 == score {
            assert forall|i: int| 0 <= i < back.len() implies !same(#[trigger] back[i]) by {
                assert(before[p + i].1 < x.1);
            }
            lemma_none_fit(back, score);
            assert(front.filter(same) + back.filter(same) =~= front.filter(same));
            assert(front.filter(same).push(x) + back.filter(same) =~= front.filter(same).push(x));
        }
    } else {
        assert(ranking(s) =~= s);
    }
}

proof fn lemma_none_fit(s: Seq<Rank>, score: i64)
    requires
        forall|i: int| 0 <= i < s.len() ==> (#[trigger] s[i]).1 != score,
    ensures
        s.filter(|r: Rank| r.1 == score).len() == 0,
    decreases s.len(),
{
    reveal(Seq::filter);
    if s.len() > 0 {
        assert(s[s.len() - 1].1 != score);
        let rest = s.drop_last();
        assert forall|i: int| 0 <= i < rest.len() implies (#[trigger] rest[i]).1 != score by {
            assert(rest[i] == s[i]);
        }
        lemma_none_fit(rest, score);
    }
}

proof fn lemma_place(s: Seq<Rank>, score: i64)
    requires
        forall|i: int, j: int|
            0 <= i <= j < s.len() ==> (#[trigger] s[i]).1 >= (#[trigger] s[j]).1,
    ensures
        0 <= place(s, score) <= s.len(),
        forall|i: int| 0 <= i < place(s, score) ==> (#[trigger] s[i]).1 >= score,
        forall|i: int| place(s, score) <= i < s.len() ==> (#[trigger] s[i]).1 < score,
    decreases s.len(),
{
    if s.len() > 0 {
        if s.last().1 < score {
            let t = s.drop_last();
            lemma_place(t, score);
            assert forall|i: int| 0 <= i < place(s, score) implies (#[trigger] s[i]).1 >= score by {
                assert(t[i] == s[i]);
            }
            assert forall|i: int| place(s, score) <= i < s.len() implies (#[trigger] s[i]).1
                < score by {
                if i < t.len() {
                    assert(t[i] == s[i]);
                }
            }
        } else {
            assert forall|i: int| 0 <= i < s.len() implies (#[trigger] s[i]).1 >= score by {
                assert(s[i].1 >= s[s.len() - 1].1);
            }
        }
    }
}

/// The best documents, at most so many, from the best score down.
pub fn top_documents(scored: Vec<RankedDocument>, limit: usize) -> (r: Vec<RankedDocument>)
    ensures
        ranks(r@) == ranking(ranks(scored@)).take(
            if scored@.len() < limit {
                scored@.len() as int
            } else {
                limit as int
            },
        ),
{
    let ghost all = scored@;
    let ghost s = ranks(all);
    let mut rest = scored;
    let n: usize = rest.len();
    let mut sorted: Vec<RankedDocument> = Vec::new();
    let mut i: usize = 0;
    assert(all.skip(0) =~= all);
    assert(s.take(0) =~= Seq::empty());
    assert(ranks(sorted@) =~= ranking(s.take(0)));
    while i < n
        invariant
            i <= n == all.len() == s.len(),
            s == ranks(all),
            rest@ == all.skip(i as int),
            ranks(sorted@) == ranking(s.take(i as int)),
        decreases n - i,
    {
        let doc = rest.remove(0);
        let ghost x = (doc.doc_id@, doc.score);
        let ghost before = ranks(sorted@);
        proof {
            assert(all.skip(i as int).remove(0) =~= all.skip(i + 1));
            assert(doc == all[i as int]);
            assert(s.take(i + 1).drop_last() =~= s.take(i as int));
            assert(s.take(i + 1).last() == x);
        }
        let mut p: usize = sorted.len();
        assert(before.take(p as int) =~= before);
        while p > 0 && sorted[p - 1].score < doc.score
            invariant
                p <= sorted@.len(),
                before == ranks(sorted@),
                place(before, doc.score) == place(before.take(p as int), doc.score),
            decreases p,
        {
            proof {
                assert(before.take(p as int).last() == before[p - 1]);
                assert(before.take(p as int).drop_last() =~= before.take(p - 1));
            }
            p -= 1;
        }
        proof {
            if p > 0 {
                assert(before.take(p as int).last() == before[p - 1]);
            }
        }
        sorted.insert(p, doc);
        assert(ranks(sorted@) =~= before.insert(p as int, x));
        i += 1;
    }
    assert(s.take(n as int) =~= s);
    let keep: usize = if n < limit {
        n
    } else {
        limit
    };
    proof {
        law_ranking_is_sorted(s);
    }
    let ghost full = sorted@;
    sorted.truncate(keep);
    assert(ranks(sorted@) =~= ranks(full).take(keep as int));
    sorted
}

/// Some posting is of the document.
pub open spec fn mentions(list: Seq<PostingView>, doc: Seq<u8>) -> bool {
    exists|i: int| 0 <= i < list.len() && (#[trigger] list[i]).doc_id == doc
}

/// Some term has a posting of the document.
pub open spec fn is_indexed(m: Lists, doc: Seq<u8>) -> bool {
    exists|k: Seq<u8>| #[trigger] m.contains_key(k) && mentions(m[k], doc)
}

/// Where a document without postings is reported.
pub open spec fn missing_text(doc: Seq<u8>) -> Seq<char> {
    "Document "@ + hex_text(doc) + " not in index"@
}

impl PagedFullTextIndex {
    fn collect_hits(list: &PostingList, snapshot: Option<&Snapshot>, out: &mut Vec<TermHit>)
        ensures
            hit_views(final(out)@) == hit_views(old(out)@) + list_hits(
                list@,
                moment_of(snapshot),
                list@.len() as int,
            ),
    {
        let ghost l = list@;
        let ghost at = moment_of(snapshot);
        let ghost out0 = hit_views(out@);
        let doc_freq: usize = list.doc_freq(snapshot);
        let mut i: usize = 0;
        assert(out0 + list_hits(l, at, 0) =~= out0);
        while i < list.entries.len()
            invariant
                i <= list.entries@.len() == l.len(),
                l == list@,
                at == moment_of(snapshot),
                doc_freq == count_of(l, at),
                hit_views(out@) == out0 + list_hits(l, at, i as int),
            decreases list.entries@.len() - i,
        {
            let counts: bool = match snapshot {
                Some(s) => list.entries[i].is_visible(s),
                None => true,
            };
            assert(counts == l[i as int].counts(at));
            if counts {
                let ghost before = out@;
                let (freq, boost) = list_term_freq(
                    list,
                    list.entries[i].doc_id.as_slice(),
                    snapshot,
                );
                let hit = TermHit {
                    doc_id: copy_bytes(list.entries[i].doc_id.as_slice()),
                    term_freq: freq,
                    doc_freq,
                    boost,
                };
                let ghost h = hit@;
                out.push(hit);
                proof {
                    assert(h == hit_of(l, l[i as int].doc_id, at));
                    assert(hit_views(out@) =~= hit_views(before).push(h));
                }
            }
            assert(hit_views(out@) =~= out0 + list_hits(l, at, i + 1));
            i += 1;
        }
    }

    /// What each posting of each term of the query adds to the score of its document, for the
    /// postings that the snapshot sees, or for all.
    pub fn search_with_snapshot(&self, query: TextQuery<'_>, snapshot: Option<&Snapshot>) -> (r:
        TableResult<Vec<TermHit>>)
        requires
            self.wf(),
        ensures
            r is Ok,
            hit_views(r->Ok_0@) == query_hits(
                self.lists(),
                self.tokenizer.terms(query.query@),
                moment_of(snapshot),
            ),
    {
        let terms = self.tokenizer.tokenize(query.query);
        let ghost ts = self.tokenizer.terms(query.query@);
        let ghost m = self.lists();
        let ghost at = moment_of(snapshot);
        let mut hits: Vec<TermHit> = Vec::new();
        let mut i: usize = 0;
        assert(ts.take(0) =~= Seq::empty());
        assert(hit_views(hits@) =~= query_hits(m, ts.take(0), at));
        while i < terms.len()
            invariant
                i <= terms@.len() == ts.len(),
                forall|k: int| 0 <= k < ts.len() ==> (#[trigger] terms@[k]).0@ == ts[k],
                self.wf(),
                m == self.lists(),
                at == moment_of(snapshot),
                hit_views(hits@) == query_hits(m, ts.take(i as int), at),
            decreases terms@.len() - i,
        {
            proof {
                assert(ts.take(i + 1).drop_last() =~= ts.take(i as int));
                assert(ts.take(i + 1).last() == ts[i as int]);
            }
            let ghost before = hit_views(hits@);
            let ghost key = encode_utf8(ts[i as int]);
            match self.inverted_index.get(terms[i].0.as_str().as_bytes()) {
                Some(list) => {
                    assert(list@ == list_of(m, key));
                    Self::collect_hits(list, snapshot, &mut hits);
                },
                None => {
                    assert(list_of(m, key) =~= Seq::empty());
                    assert(before + list_hits(list_of(m, key), at, 0) =~= before);
                },
            }
            i += 1;
        }
        assert(ts.take(i as int) =~= ts);
        Ok(hits)
    }

    /// What each posting of each term of the query adds to the score of its document.
    pub fn search(&self, query: TextQuery<'_>) -> (r: TableResult<Vec<TermHit>>)
        requires
            self.wf(),
        ensures
            r is Ok,
            hit_views(r->Ok_0@) == query_hits(
                self.lists(),
                self.tokenizer.terms(query.query@),
                None,
            ),
    {
        self.search_with_snapshot(query, None)
    }

    fn has_postings(&self, doc: &[u8]) -> (r: bool)
        requires
            self.wf(),
        ensures
            r == is_indexed(self.lists(), doc@),
    {
        let ghost m = self.lists();
        let ghost keys = self.inverted_index.keys();
        let n: usize = self.inverted_index.entries.len();
        let mut i: usize = 0;
        while i < n
            invariant
                i <= n == self.inverted_index.entries@.len() == keys.len(),
                keys == self.inverted_index.keys(),
                m == self.lists(),
                self.wf(),
                forall|j: int| 0 <= j < i ==> !mentions(m[#[trigger] keys[j]], doc@),
            decreases n - i,
        {
            proof {
                self.inverted_index.lemma_entry(i as int);
                assert(m.contains_key(keys[i as int]));
            }
            let ghost list = self.inverted_index.entries@[i as int].1@;
            assert(m[keys[i as int]] == list);
            let mut j: usize = 0;
            while j < self.inverted_index.entries[i].1.entries.len()
                invariant
                    i < n == self.inverted_index.entries@.len(),
                    list == self.inverted_index.entries@[i as int].1@,
                    m.contains_key(keys[i as int]),
                    m[keys[i as int]] == list,
                    j <= list.len(),
                    m == self.lists(),
                    forall|k: int| 0 <= k < j ==> (#[trigger] list[k]).doc_id != doc@,
                decreases list.len() - j,
            {
                if bytes_equal(self.inverted_index.entries[i].1.entries[j].doc_id.as_slice(), doc) {
                    assert(list[j as int].doc_id == doc@);
                    assert(mentions(m[keys[i as int]], doc@));
                    return true;
                }
                j += 1;
            }
            i += 1;
        }
        proof {
            assert forall|k: Seq<u8>| #[trigger] m.contains_key(k) implies !mentions(m[k], doc@) by {
                let j = self.inverted_index.lemma_key(k);
                assert(keys[j] == k);
            }
        }
        false
    }

    /// Checks that every document that is kept has postings, and warns of those that have none.
    pub fn verify(&self) -> (r: TableResult<VerificationReport>)
        requires
            self.wf(),
        ensures
            r is Ok,
            r->Ok_0.checked_items == self.num_documents,
            r->Ok_0.errors@.len() == 0,
            ({
                let missing = keys_where(
                    self.document_store.keys(),
                    |d: Seq<u8>| !is_indexed(self.lists(), d),
                );
                &&& r->Ok_0.warnings@.len() == missing.len()
                &&& forall|i: int|
                    0 <= i < missing.len() ==> (#[trigger] r->Ok_0.warnings@[i]).location@
                        == missing_text(missing[i]) && r->Ok_0.warnings@[i].detail == 0
            }),
    {
        let ghost docs = self.document_store.keys();
        let ghost p = |d: Seq<u8>| !is_indexed(self.lists(), d);
        let mut warnings: Vec<ConsistencyWarning> = Vec::new();
        let n: usize = self.document_store.entries.len();
        let mut i: usize = 0;
        assert(docs.take(0) =~= Seq::empty());
        while i < n
            invariant
                i <= n == self.document_store.entries@.len(),
                self.wf(),
                docs == self.document_store.keys(),
                p == (|d: Seq<u8>| !is_indexed(self.lists(), d)),
                warnings@.len() == keys_where(docs.take(i as int), p).len(),
                forall|k: int|
                    0 <= k < warnings@.len() ==> (#[trigger] warnings@[k]).location@
                        == missing_text(keys_where(docs.take(i as int), p)[k])
                        && warnings@[k].detail == 0,
            decreases n - i,
        {
            proof {
                assert(docs.take(i + 1).drop_last() =~= docs.take(i as int));
                assert(docs.take(i + 1).last() == docs[i as int]);
            }
            let doc = self.document_store.entries[i].0.as_slice();
            if !self.has_postings(doc) {
                let digits = hex_encode(doc);
                let location = String::from_str("Document ").concat(digits.as_str()).concat(
                    " not in index",
                );
                assert(location@ == missing_text(doc@));
                warnings.push(ConsistencyWarning { location, detail: 0 });
            }
            i += 1;
        }
        assert(docs.take(n as int) =~= docs);
        Ok(
            VerificationReport {
                checked_items: self.num_documents,
                errors: Vec::new(),
                warnings,
            },
        )
    }

    /// The identifier of the table.
    pub fn table_id(&self) -> (r: TableId)
        ensures
            r == self.table_id,
    {
        self.table_id
    }

    /// The name of the table.
    pub fn name(&self) -> (r: &str)
        ensures
            r@ == self.name@,
    {
        self.name.as_str()
    }

    /// The engine of the table.
    pub fn kind(&self) -> (r: TableEngineKind)
        ensures
            r == TableEngineKind::FullText,
    {
        TableEngineKind::FullText
    }

    /// What the table can do.
    pub fn capabilities(&self) -> (r: TableCapabilities)
        ensures
            r == (TableCapabilities {
                ordered: false,
                point_lookup: false,
                prefix_scan: false,
                reverse_scan: false,
                range_delete: false,
                merge_operator: false,
                mvcc_native: false,
                append_optimized: false,
                memory_resident: false,
                disk_resident: false,
                supports_compression: true,
                supports_encryption: false,
            }),
    {
        TableCapabilities {
            ordered: false,
            point_lookup: false,
            prefix_scan: false,
            reverse_scan: false,
            range_delete: false,
            merge_operator: false,
            mvcc_native: false,
            append_optimized: false,
            memory_resident: false,
            disk_resident: false,
            supports_compression: true,
            supports_encryption: false,
        }
    }

    /// What is known of the table's contents.
    pub fn stats(&self) -> (r: TableResult<TableStatistics>)
        ensures
            r == Ok::<TableStatistics, TableError>(
                TableStatistics {
                    row_count: Some(self.num_documents),
                    page_count: None,
                    total_size_bytes: None,
                    key_stats: None,
                    value_stats: None,
                    last_updated_lsn: None,
                },
            ),
    {
        Ok(
            TableStatistics {
                row_count: Some(self.num_documents),
                page_count: None,
                total_size_bytes: None,
                key_stats: None,
                value_stats: None,
                last_updated_lsn: None,
            },
        )
    }

    /// What the table can do as an index.
    pub fn specialty_capabilities(&self) -> (r: SpecialtyTableCapabilities)
        ensures
            r == (SpecialtyTableCapabilities {
                exact: true,
                approximate: false,
                ordered: false,
                sparse: false,
                supports_delete: true,
                supports_range_query: false,
                supports_prefix_query: false,
                supports_scoring: true,
                supports_incremental_rebuild: false,
                may_be_stale: false,
            }),
    {
        SpecialtyTableCapabilities {
            exact: true,
            approximate: false,
            ordered: false,
            sparse: false,
            supports_delete: true,
            supports_range_query: false,
            supports_prefix_query: false,
            supports_scoring: true,
            supports_incremental_rebuild: false,
            may_be_stale: false,
        }
    }

    /// What is known of the index's contents.
    pub fn specialty_stats(&self) -> (r: TableResult<SpecialtyTableStats>)
        ensures
            r == Ok::<SpecialtyTableStats, TableError>(
                SpecialtyTableStats {
                    entry_count: Some(self.num_documents),
                    size_bytes: None,
                    distinct_keys: Some(self.num_terms),
                    stale_entries: None,
                    last_updated_lsn: None,
                },
            ),
    {
        Ok(
            SpecialtyTableStats {
                entry_count: Some(self.num_documents),
                size_bytes: None,
                distinct_keys: Some(self.num_terms),
                stale_entries: None,
                last_updated_lsn: None,
            },
        )
    }
}

/// One of the hits is of the document.
pub open spec fn finds(hits: Seq<HitView>, doc: Seq<u8>) -> bool {
    exists|i: int| 0 <= i < hits.len() && (#[trigger] hits[i]).doc_id == doc
}

/// One of the postings of the document counts.
pub open spec fn has_counting(list: Seq<PostingView>, doc: Seq<u8>, at: Option<Moment>) -> bool {
    exists|i: int| 0 <= i < list.len() && (#[trigger] list[i]).doc_id == doc && list[i].counts(at)
}

proof fn lemma_list_finds(list: Seq<PostingView>, doc: Seq<u8>, at: Option<Moment>, n: int)
    requires
        0 <= n <= list.len(),
    ensures
        finds(list_hits(list, at, n), doc) <==> exists|i: int|
            0 <= i < n && (#[trigger] list[i]).doc_id == doc && list[i].counts(at),
    decreases n,
{
    if n > 0 {
        lemma_list_finds(list, doc, at, n - 1);
        let before = list_hits(list, at, n - 1);
        let hits = list_hits(list, at, n);
        if finds(before, doc) {
            let j = choose|j: int| 0 <= j < before.len() && (#[trigger] before[j]).doc_id == doc;
            assert(hits[j].doc_id == doc);
        }
        if list[n - 1].counts(at) && list[n - 1].doc_id == doc {
            assert(hits[hits.len() - 1].doc_id == doc);
        }
        if finds(hits, doc) {
            let j = choose|j: int| 0 <= j < hits.len() && (#[trigger] hits[j]).doc_id == doc;
            if j < before.len() {
                assert(before[j].doc_id == doc);
            }
        }
    }
}

/// A search finds a document if and only if a posting of it counts under one of the terms.
pub proof fn law_search_finds_what_counts(
    m: Lists,
    terms: Seq<Seq<char>>,
    doc: Seq<u8>,
    at: Option<Moment>,
)
    ensures
        finds(query_hits(m, terms, at), doc) <==> exists|k: int|
            0 <= k < terms.len() && has_counting(
                list_of(m, encode_utf8(#[trigger] terms[k])),
                doc,
                at,
            ),
    decreases terms.len(),
{
    if terms.len() > 0 {
        let front = terms.drop_last();
        law_search_finds_what_counts(m, front, doc, at);
        let list = list_of(m, encode_utf8(terms.last()));
        lemma_list_finds(list, doc, at, list.len() as int);
        let a = query_hits(m, front, at);
        let b = list_hits(list, at, list.len() as int);
        let all = query_hits(m, terms, at);
        assert(all =~= a + b);
        if finds(a, doc) {
            let j = choose|j: int| 0 <= j < a.len() && (#[trigger] a[j]).doc_id == doc;
            assert(all[j].doc_id == doc);
            let k = choose|k: int|
                0 <= k < front.len() && has_counting(
                    list_of(m, encode_utf8(#[trigger] front[k])),
                    doc,
                    at,
                );
            assert(terms[k] == front[k]);
        }
        if finds(b, doc) {
            let j = choose|j: int| 0 <= j < b.len() && (#[trigger] b[j]).doc_id == doc;
            assert(all[a.len() + j].doc_id == doc);
            assert(terms[terms.len() - 1] == terms.last());
        }
        if finds(all, doc) {
            let j = choose|j: int| 0 <= j < all.len() && (#[trigger] all[j]).doc_id == doc;
            if j < a.len() {
                assert(a[j].doc_id == doc);
            } else {
                assert(b[j - a.len()].doc_id == doc);
            }
        }
        if exists|k: int|
            0 <= k < terms.len() && has_counting(
                list_of(m, encode_utf8(#[trigger] terms[k])),
                doc,
                at,
            ) {
            let k = choose|k: int|
                0 <= k < terms.len() && has_counting(
                    list_of(m, encode_utf8(#[trigger] terms[k])),
                    doc,
                    at,
                );
            if k < front.len() {
                assert(front[k] == terms[k]);
            }
        }
    }
}

/// A document that was added or updated and committed is found by every search for one of the
/// terms of its fields: at every snapshot from the commit on that does not hide the transaction,
/// and without a snapshot. Whatever stood in the index before, deletions of the document included,
/// makes no difference.
pub proof fn law_committed_document_is_found(
    m: Lists,
    tokenizer: Tokenizer,
    fields: Seq<TextField>,
    doc: Seq<u8>,
    tx: TransactionId,
    keep: bool,
    lsn: LogSequenceNumber,
    at: Option<Moment>,
    f: int,
    i: int,
    terms: Seq<Seq<char>>,
)
    requires
        0 <= f < fields.len(),
        0 <= i < tokenizer.terms(fields[f].text@).len(),
        terms.contains(tokenizer.terms(fields[f].text@)[i]),
        at matches Some(a) ==> lsn.0 <= a.0.0 && !a.1.contains(tx),
    ensures
        finds(
            query_hits(
                with_all_commits(
                    with_fields(m, tokenizer, fields, fields.len() as int, doc, tx, keep),
                    lsn,
                ),
                terms,
                at,
            ),
            doc,
        ),
{
    let m1 = with_fields(m, tokenizer, fields, fields.len() as int, doc, tx, keep);
    let m2 = with_all_commits(m1, lsn);
    let word = tokenizer.terms(fields[f].text@)[i];
    let key = encode_utf8(word);
    let name = fields[f].name@;
    law_added_document_is_noted(m, tokenizer, fields, fields.len() as int, doc, tx, keep, f, i);
    let p = choose|p: int| #[trigger] is_note(m1[key], p, doc, name, tx);
    assert(is_note(m1[key], p, doc, name, tx));
    if let Some(a) = at {
        law_fresh_posting_is_seen(m1[key][p], tx, lsn, a);
    }
    let list = list_of(m2, key);
    assert(list[p] == m1[key][p].committed(lsn));
    assert(list[p].doc_id == doc && list[p].counts(at));
    assert(has_counting(list, doc, at));
    let k = choose|k: int| 0 <= k < terms.len() && terms[k] == word;
    assert(has_counting(list_of(m2, encode_utf8(terms[k])), doc, at));
    law_search_finds_what_counts(m2, terms, doc, at);
}

/// A document whose deletion is committed is found by no search at a snapshot from the commit on
/// that does not hide the transaction.
pub proof fn law_deleted_document_is_not_found(
    m: Lists,
    doc: Seq<u8>,
    tx: TransactionId,
    lsn: LogSequenceNumber,
    at: Moment,
    terms: Seq<Seq<char>>,
)
    requires
        lsn.0 <= at.0.0,
        !at.1.contains(tx),
    ensures
        !finds(
            query_hits(with_all_commits(without_text(m, doc, tx), lsn), terms, Some(at)),
            doc,
        ),
{
    let m2 = with_all_commits(without_text(m, doc, tx), lsn);
    law_search_finds_what_counts(m2, terms, doc, Some(at));
    assert forall|k: int| 0 <= k < terms.len() implies !has_counting(
        list_of(m2, encode_utf8(#[trigger] terms[k])),
        doc,
        Some(at),
    ) by {
        let key = encode_utf8(terms[k]);
        lemma_deleted_list(m, key, doc, tx, lsn, at);
    }
}

/// A deletion changes nothing for searches at a snapshot before its commit: a document of committed
/// versions is found there if and only if it was found before.
pub proof fn law_deletion_keeps_earlier_searches(
    m: Lists,
    doc: Seq<u8>,
    tx: TransactionId,
    lsn: LogSequenceNumber,
    at: Moment,
    terms: Seq<Seq<char>>,
)
    requires
        at.0.0 < lsn.0,
        forall|key: Seq<u8>, i: int, v: int|
            m.contains_key(key) && 0 <= i < m[key].len() && m[key][i].doc_id == doc && 0 <= v
                < m[key][i].versions.len() ==> (
            #[trigger] m[key][i].versions[v]).commit_lsn is Some,
    ensures
        finds(
            query_hits(with_all_commits(without_text(m, doc, tx), lsn), terms, Some(at)),
            doc,
        ) == finds(query_hits(m, terms, Some(at)), doc),
{
    let m2 = with_all_commits(without_text(m, doc, tx), lsn);
    law_search_finds_what_counts(m2, terms, doc, Some(at));
    law_search_finds_what_counts(m, terms, doc, Some(at));
    assert forall|k: int| 0 <= k < terms.len() implies has_counting(
        list_of(m2, encode_utf8(#[trigger] terms[k])),
        doc,
        Some(at),
    ) == has_counting(list_of(m, encode_utf8(terms[k])), doc, Some(at)) by {
        let key = encode_utf8(terms[k]);
        let a = list_of(m, key);
        let b = list_of(m2, key);
        assert forall|i: int| 0 <= i < a.len() && (#[trigger] a[i]).doc_id == doc implies b[i].doc_id
            == doc && b[i].counts(Some(at)) == a[i].counts(Some(at)) by {
            law_deletion_keeps_the_past(m[key], doc, tx, lsn, at, i);
        }
        if has_counting(a, doc, Some(at)) {
            let i = choose|i: int|
                0 <= i < a.len() && (#[trigger] a[i]).doc_id == doc && a[i].counts(Some(at));
            assert(b[i].doc_id == doc && b[i].counts(Some(at)));
        }
        if has_counting(b, doc, Some(at)) {
            let i = choose|i: int|
                0 <= i < b.len() && (#[trigger] b[i]).doc_id == doc && b[i].counts(Some(at));
            assert(a[i].doc_id == doc && a[i].counts(Some(at)));
        }
    }
}

proof fn lemma_deleted_list(
    m: Lists,
    key: Seq<u8>,
    doc: Seq<u8>,
    tx: TransactionId,
    lsn: LogSequenceNumber,
    at: Moment,
)
    requires
        lsn.0 <= at.0.0,
        !at.1.contains(tx),
    ensures
        !has_counting(
            list_of(with_all_commits(without_text(m, doc, tx), lsn), key),
            doc,
            Some(at),
        ),
{
    let list = list_of(with_all_commits(without_text(m, doc, tx), lsn), key);
    assert forall|i: int| 0 <= i < list.len() && (#[trigger] list[i]).doc_id == doc implies !list[i].counts(
        Some(at),
    ) by {
        law_deleted_document_is_hidden(m[key], doc, tx, lsn, at, i);
    }
}

/// The postings of a term that an added text does not have are those of before.
proof fn lemma_other_terms(
    m: Lists,
    tokenizer: Tokenizer,
    fields: Seq<TextField>,
    n: int,
    doc: Seq<u8>,
    tx: TransactionId,
    keep: bool,
    key: Seq<u8>,
)
    requires
        0 <= n <= fields.len(),
        forall|f: int, i: int|
            0 <= f < n && 0 <= i < tokenizer.terms(fields[f].text@).len() ==> encode_utf8(
                #[trigger] tokenizer.terms(fields[f].text@)[i],
            ) != key,
    ensures
        list_of(with_fields(m, tokenizer, fields, n, doc, tx, keep), key) == list_of(m, key),
    decreases n,
{
    if n > 0 {
        lemma_other_terms(m, tokenizer, fields, n - 1, doc, tx, keep, key);
        let last = fields[n - 1];
        let ts = tokenizer.terms(last.text@);
        assert forall|i: int| 0 <= i < ts.len() implies encode_utf8(#[trigger] ts[i]) != key by {
            assert(ts[i] == tokenizer.terms(fields[n - 1].text@)[i]);
        }
        lemma_other_terms_of_field(
            with_fields(m, tokenizer, fields, n - 1, doc, tx, keep),
            ts,
            doc,
            last.name@,
            last.boost,
            tx,
            keep,
            key,
        );
    }
}

proof fn lemma_other_terms_of_field(
    m: Lists,
    terms: Seq<Seq<char>>,
    doc: Seq<u8>,
    field: Seq<char>,
    boost: u32,
    tx: TransactionId,
    keep: bool,
    key: Seq<u8>,
)
    requires
        forall|i: int| 0 <= i < terms.len() ==> encode_utf8(#[trigger] terms[i]) != key,
    ensures
        list_of(with_field(m, terms, doc, field, boost, tx, keep), key) == list_of(m, key),
    decreases terms.len(),
{
    if terms.len() > 0 {
        let front = terms.drop_last();
        assert forall|i: int| 0 <= i < front.len() implies encode_utf8(#[trigger] front[i])
            != key by {
            assert(front[i] == terms[i]);
        }
        lemma_other_terms_of_field(m, front, doc, field, boost, tx, keep, key);
        assert(encode_utf8(terms[terms.len() - 1]) != key);
    }
}

/// An updated document is found by no search for terms that its new text does not have, at a
/// snapshot from the commit on that does not hide the transaction.
pub proof fn law_updated_document_is_not_found_by_old_terms(
    m: Lists,
    tokenizer: Tokenizer,
    fields: Seq<TextField>,
    doc: Seq<u8>,
    tx: TransactionId,
    keep: bool,
    lsn: LogSequenceNumber,
    at: Moment,
    terms: Seq<Seq<char>>,
)
    requires
        lsn.0 <= at.0.0,
        !at.1.contains(tx),
        forall|f: int, i: int, k: int|
            0 <= f < fields.len() && 0 <= i < tokenizer.terms(fields[f].text@).len() && 0 <= k
                < terms.len() ==> encode_utf8(#[trigger] tokenizer.terms(fields[f].text@)[i])
                != encode_utf8(#[trigger] terms[k]),
    ensures
        !finds(
            query_hits(
                with_all_commits(
                    with_fields(
                        without_text(m, doc, tx),
                        tokenizer,
                        fields,
                        fields.len() as int,
                        doc,
                        tx,
                        keep,
                    ),
                    lsn,
                ),
                terms,
                Some(at),
            ),
            doc,
        ),
{
    let m0 = without_text(m, doc, tx);
    let m1 = with_fields(m0, tokenizer, fields, fields.len() as int, doc, tx, keep);
    let m2 = with_all_commits(m1, lsn);
    law_search_finds_what_counts(m2, terms, doc, Some(at));
    assert forall|k: int| 0 <= k < terms.len() implies !has_counting(
        list_of(m2, encode_utf8(#[trigger] terms[k])),
        doc,
        Some(at),
    ) by {
        let key = encode_utf8(terms[k]);
        lemma_other_terms(m0, tokenizer, fields, fields.len() as int, doc, tx, keep, key);
        lemma_deleted_list(m, key, doc, tx, lsn, at);
        assert(list_of(m2, key) =~= list_of(with_all_commits(m0, lsn), key));
    }
}

/// The postings of a document are the same in both lists of every term.
pub open spec fn keeps_postings(m: Lists, m2: Lists, doc: Seq<u8>) -> bool {
    forall|key: Seq<u8>| #[trigger] same_postings(list_of(m, key), list_of(m2, key), doc)
}

/// The postings of a document stand at the same places in both lists.
pub open spec fn same_postings(a: Seq<PostingView>, b: Seq<PostingView>, doc: Seq<u8>) -> bool {
    &&& a.len() <= b.len()
    &&& forall|i: int|
        0 <= i < b.len() && (#[trigger] b[i]).doc_id == doc ==> i < a.len() && a[i] == b[i]
    &&& forall|i: int|
        0 <= i < a.len() && (#[trigger] a[i]).doc_id == doc ==> b[i] == a[i]
}

proof fn lemma_kept_postings_are_found(
    m: Lists,
    m2: Lists,
    doc: Seq<u8>,
    at: Option<Moment>,
    terms: Seq<Seq<char>>,
)
    requires
        keeps_postings(m, m2, doc),
    ensures
        finds(query_hits(m2, terms, at), doc) == finds(query_hits(m, terms, at), doc),
{
    law_search_finds_what_counts(m, terms, doc, at);
    law_search_finds_what_counts(m2, terms, doc, at);
    assert forall|k: int| 0 <= k < terms.len() implies has_counting(
        list_of(m2, encode_utf8(#[trigger] terms[k])),
        doc,
        at,
    ) == has_counting(list_of(m, encode_utf8(terms[k])), doc, at) by {
        let key = encode_utf8(terms[k]);
        let a = list_of(m, key);
        let b = list_of(m2, key);
        assert(same_postings(a, b, doc));
        if has_counting(a, doc, at) {
            let i = choose|i: int|
                0 <= i < a.len() && (#[trigger] a[i]).doc_id == doc && a[i].counts(at);
            assert(b[i].doc_id == doc && b[i].counts(at));
        }
        if has_counting(b, doc, at) {
            let i = choose|i: int|
                0 <= i < b.len() && (#[trigger] b[i]).doc_id == doc && b[i].counts(at);
            assert(a[i].doc_id == doc && a[i].counts(at));
        }
    }
}

proof fn lemma_field_keeps_others(
    m: Lists,
    terms: Seq<Seq<char>>,
    doc: Seq<u8>,
    field: Seq<char>,
    boost: u32,
    tx: TransactionId,
    keep: bool,
    other: Seq<u8>,
)
    requires
        other != doc,
    ensures
        keeps_postings(m, with_field(m, terms, doc, field, boost, tx, keep), other),
    decreases terms.len(),
{
    if terms.len() > 0 {
        let front = terms.drop_last();
        lemma_field_keeps_others(m, front, doc, field, boost, tx, keep, other);
        let mid = with_field(m, front, doc, field, boost, tx, keep);
        let m2 = with_field(m, terms, doc, field, boost, tx, keep);
        let word = encode_utf8(terms.last());
        lemma_posting_index(list_of(mid, word), doc, field);
        assert forall|key: Seq<u8>| #[trigger] same_postings(
            list_of(m, key),
            list_of(m2, key),
            other,
        ) by {
            assert(same_postings(list_of(m, key), list_of(mid, key), other));
            if key != word {
                assert(list_of(m2, key) == list_of(mid, key));
            }
        }
    }
}

proof fn lemma_fields_keep_others(
    m: Lists,
    tokenizer: Tokenizer,
    fields: Seq<TextField>,
    n: int,
    doc: Seq<u8>,
    tx: TransactionId,
    keep: bool,
    other: Seq<u8>,
)
    requires
        0 <= n <= fields.len(),
        other != doc,
    ensures
        keeps_postings(m, with_fields(m, tokenizer, fields, n, doc, tx, keep), other),
    decreases n,
{
    let m2 = with_fields(m, tokenizer, fields, n, doc, tx, keep);
    if n > 0 {
        let last = fields[n - 1];
        let mid = with_fields(m, tokenizer, fields, n - 1, doc, tx, keep);
        lemma_fields_keep_others(m, tokenizer, fields, n - 1, doc, tx, keep, other);
        lemma_field_keeps_others(
            mid,
            tokenizer.terms(last.text@),
            doc,
            last.name@,
            last.boost,
            tx,
            keep,
            other,
        );
        assert forall|key: Seq<u8>| #[trigger] same_postings(
            list_of(m, key),
            list_of(m2, key),
            other,
        ) by {
            assert(same_postings(list_of(m, key), list_of(mid, key), other));
            assert(same_postings(list_of(mid, key), list_of(m2, key), other));
        }
    }
}

/// Adding a document changes nothing for other documents: every search finds them if and only if
/// it found them before.
pub proof fn law_added_document_keeps_others(
    m: Lists,
    tokenizer: Tokenizer,
    fields: Seq<TextField>,
    doc: Seq<u8>,
    tx: TransactionId,
    keep: bool,
    other: Seq<u8>,
    at: Option<Moment>,
    terms: Seq<Seq<char>>,
)
    requires
        other != doc,
    ensures
        finds(
            query_hits(
                with_fields(m, tokenizer, fields, fields.len() as int, doc, tx, keep),
                terms,
                at,
            ),
            other,
        ) == finds(query_hits(m, terms, at), other),
{
    let n = fields.len() as int;
    lemma_fields_keep_others(m, tokenizer, fields, n, doc, tx, keep, other);
    let m2 = with_fields(m, tokenizer, fields, n, doc, tx, keep);
    lemma_kept_postings_are_found(m, m2, other, at, terms);
}

/// Deleting a document changes nothing for other documents: every search finds them if and only
/// if it found them before.
pub proof fn law_deleted_document_keeps_others(
    m: Lists,
    doc: Seq<u8>,
    tx: TransactionId,
    other: Seq<u8>,
    at: Option<Moment>,
    terms: Seq<Seq<char>>,
)
    requires
        other != doc,
    ensures
        finds(query_hits(without_text(m, doc, tx), terms, at), other) == finds(
            query_hits(m, terms, at),
            other,
        ),
{
    let m2 = without_text(m, doc, tx);
    assert forall|key: Seq<u8>| #[trigger] same_postings(
        list_of(m, key),
        list_of(m2, key),
        other,
    ) by {
        let a = list_of(m, key);
        let b = list_of(m2, key);
        assert(a.len() == b.len());
        assert forall|i: int| 0 <= i < a.len() implies (#[trigger] b[i]).doc_id == a[i].doc_id && (
        a[i].doc_id == other ==> b[i] == a[i]) by {}
    }
    lemma_kept_postings_are_found(m, m2, other, at, terms);
}

} // verus!
